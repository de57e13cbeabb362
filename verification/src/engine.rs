//! How the engine sets up its template loaders from its settings.
use vstd::prelude::*;

use crate::text::str_eq;

verus! {

/// The loaders that the engine knows.
#[derive(Clone, Copy, Debug, PartialEq, Eq, Structural)]
pub enum LoaderName {
    FileSystem,
    AppDirs,
    LocMem,
    Cached,
}

/// The loader that the dotted path `path` names, if the engine knows it.
pub open spec fn spec_loader_name(path: Seq<char>) -> Option<LoaderName> {
    if path == "django.template.loaders.filesystem.Loader"@ {
        Some(LoaderName::FileSystem)
    } else if path == "django.template.loaders.app_directories.Loader"@ {
        Some(LoaderName::AppDirs)
    } else if path == "django.template.loaders.locmem.Loader"@ {
        Some(LoaderName::LocMem)
    } else if path == "django.template.loaders.cached.Loader"@ {
        Some(LoaderName::Cached)
    } else {
        None
    }
}

/// Each loader that the engine knows is named by its own dotted path and by no other; no other
/// path names a loader.
pub proof fn lemma_loader_names(path: Seq<char>)
    ensures
        (spec_loader_name(path) == Some(LoaderName::FileSystem)) == (path == "django.template.loaders.filesystem.Loader"@),
        (spec_loader_name(path) == Some(LoaderName::AppDirs)) == (path == "django.template.loaders.app_directories.Loader"@),
        (spec_loader_name(path) == Some(LoaderName::LocMem)) == (path == "django.template.loaders.locmem.Loader"@),
        (spec_loader_name(path) == Some(LoaderName::Cached)) == (path == "django.template.loaders.cached.Loader"@),
        (spec_loader_name(path) is None) == !(path == "django.template.loaders.filesystem.Loader"@ || path == "django.template.loaders.app_directories.Loader"@ || path == "django.template.loaders.locmem.Loader"@ || path == "django.template.loaders.cached.Loader"@),
{
    reveal_strlit("django.template.loaders.filesystem.Loader");
    reveal_strlit("django.template.loaders.app_directories.Loader");
    reveal_strlit("django.template.loaders.locmem.Loader");
    reveal_strlit("django.template.loaders.cached.Loader");
    assert("django.template.loaders.filesystem.Loader"@.len() != "django.template.loaders.app_directories.Loader"@.len());
    assert("django.template.loaders.filesystem.Loader"@.len() != "django.template.loaders.locmem.Loader"@.len());
    assert("django.template.loaders.filesystem.Loader"@.len() != "django.template.loaders.cached.Loader"@.len());
    assert("django.template.loaders.app_directories.Loader"@.len() != "django.template.loaders.locmem.Loader"@.len());
    assert("django.template.loaders.app_directories.Loader"@.len() != "django.template.loaders.cached.Loader"@.len());
    assert("django.template.loaders.locmem.Loader"@[24] != "django.template.loaders.cached.Loader"@[24]);
}

/// The loader that the dotted path `path` names, if the engine knows it.
pub fn loader_name(path: &str) -> (r: Option<LoaderName>)
    ensures
        r == spec_loader_name(path@),
{
    if str_eq(path, "django.template.loaders.filesystem.Loader") {
        Some(LoaderName::FileSystem)
    } else if str_eq(path, "django.template.loaders.app_directories.Loader") {
        Some(LoaderName::AppDirs)
    } else if str_eq(path, "django.template.loaders.locmem.Loader") {
        Some(LoaderName::LocMem)
    } else if str_eq(path, "django.template.loaders.cached.Loader") {
        Some(LoaderName::Cached)
    } else {
        None
    }
}

/// A loader as the engine sets it up: its kind, the directories of a file-system loader, the
/// templates (name and source) of a loader from memory, and the loaders that a cached loader
/// wraps.
#[derive(Debug, PartialEq, Eq)]
pub struct Loader {
    pub name: LoaderName,
    pub dirs: Vec<String>,
    pub templates: Vec<(String, String)>,
    pub loaders: Vec<Loader>,
}

/// Whether `l` is the loader `name` with no directories, templates or loaders, as the loaders
/// that a cached loader wraps are set up.
pub open spec fn bare(l: Loader, name: LoaderName) -> bool {
    &&& l.name == name
    &&& l.dirs@.len() == 0
    &&& l.templates@.len() == 0
    &&& l.loaders@.len() == 0
}

/// Whether the setting of the loader at `path` with the arguments `args` and `templates` can be
/// set up: the engine knows the loader, and, for a cached loader, each loader it wraps.
pub open spec fn loader_known(path: Seq<char>, args: Seq<String>) -> bool {
    &&& spec_loader_name(path) is Some
    &&& spec_loader_name(path) == Some(LoaderName::Cached) ==> forall|i: int|
        0 <= i < args.len() ==> spec_loader_name(#[trigger] args[i]@) is Some
}

/// Whether `r` is how the engine sets up the loader at `path` with the list of arguments `args`
/// and the mapping of arguments `templates`: a file-system loader takes the list as its
/// directories, a loader from memory takes the mapping as its templates, an app-directories
/// loader takes nothing, and a cached loader takes the list as the paths of the loaders it
/// wraps; a path that names no loader is refused, by the first such path.
pub open spec fn loader_set_up(
    path: Seq<char>,
    args: Seq<String>,
    templates: Seq<(String, String)>,
    r: Result<Loader, String>,
) -> bool {
    match spec_loader_name(path) {
        None => r matches Err(p) && p@ == path,
        Some(LoaderName::FileSystem) => r matches Ok(l) && l.name == LoaderName::FileSystem
            && l.dirs@ == args && l.templates@.len() == 0 && l.loaders@.len() == 0,
        Some(LoaderName::AppDirs) => r matches Ok(l) && bare(l, LoaderName::AppDirs),
        Some(LoaderName::LocMem) => r matches Ok(l) && l.name == LoaderName::LocMem && l.templates@
            == templates && l.dirs@.len() == 0 && l.loaders@.len() == 0,
        Some(LoaderName::Cached) => match r {
            Ok(l) => {
                &&& l.name == LoaderName::Cached
                &&& l.dirs@.len() == 0
                &&& l.templates@.len() == 0
                &&& l.loaders@.len() == args.len()
                &&& forall|i: int|
                    0 <= i < args.len() ==> (spec_loader_name(#[trigger] args[i]@) matches Some(n)
                        && bare(l.loaders@[i], n))
            },
            Err(p) => exists|k: int|
                0 <= k < args.len() && spec_loader_name(#[trigger] args[k]@) is None && p@ == args[k]@
                    && forall|j: int| 0 <= j < k ==> spec_loader_name(#[trigger] args[j]@) is Some,
        },
    }
}

/// A loader with nothing in it.
fn bare_loader(name: LoaderName) -> (r: Loader)
    ensures
        bare(r, name),
{
    Loader { name, dirs: Vec::new(), templates: Vec::new(), loaders: Vec::new() }
}

/// Sets up the loader at `path` with the list of arguments `args` and the mapping of arguments
/// `templates`; a path that names no loader is given back as the error.
pub fn map_loader(path: &str, args: Vec<String>, templates: Vec<(String, String)>) -> (r: Result<
    Loader,
    String,
>)
    ensures
        loader_set_up(path@, args@, templates@, r),
        r is Ok <==> loader_known(path@, args@),
{
    match loader_name(path) {
        None => Err(path.to_string()),
        Some(LoaderName::FileSystem) => Ok(
            Loader {
                name: LoaderName::FileSystem,
                dirs: args,
                templates: Vec::new(),
                loaders: Vec::new(),
            },
        ),
        Some(LoaderName::AppDirs) => Ok(bare_loader(LoaderName::AppDirs)),
        Some(LoaderName::LocMem) => Ok(
            Loader { name: LoaderName::LocMem, dirs: Vec::new(), templates, loaders: Vec::new() },
        ),
        Some(LoaderName::Cached) => {
            let mut loaders: Vec<Loader> = Vec::new();
            let mut i: usize = 0;
            while i < args.len()
                invariant
                    0 <= i <= args@.len(),
                    spec_loader_name(path@) == Some(LoaderName::Cached),
                    loaders@.len() == i,
                    forall|j: int|
                        0 <= j < i ==> (spec_loader_name(#[trigger] args@[j]@) matches Some(n) && bare(
                            loaders@[j],
                            n,
                        )),
                decreases args@.len() - i,
            {
                match loader_name(args[i].as_str()) {
                    None => {
                        let p = args[i].clone();
                        assert(spec_loader_name(args@[i as int]@) is None);
                        return Err(p);
                    },
                    Some(n) => {
                        loaders.push(bare_loader(n));
                    },
                }
                i = i + 1;
            }
            Ok(Loader { name: LoaderName::Cached, dirs: Vec::new(), templates: Vec::new(), loaders })
        },
    }
}

/// A setting of the engine's `loaders` list: the loader's dotted path, its list of arguments and
/// its mapping of arguments (empty where the setting gives none).
#[derive(Debug, PartialEq, Eq)]
pub struct LoaderSetting {
    pub path: String,
    pub args: Vec<String>,
    pub templates: Vec<(String, String)>,
}

/// What the engine's settings of its loaders are refused for: `app_dirs` set together with
/// `loaders`, or a loader path that names no loader (given back).
#[derive(Debug, PartialEq, Eq)]
pub enum EngineError {
    ImproperlyConfigured,
    UnsupportedLoader(String),
}

/// Whether `ls` are the loaders that the engine sets up when no loaders are given: one cached
/// loader that wraps a file-system loader over `dirs`, and an app-directories loader when
/// `app_dirs` is set.
pub open spec fn default_loaders(dirs: Seq<String>, app_dirs: bool, ls: Seq<Loader>) -> bool {
    &&& ls.len() == 1
    &&& ls[0].name == LoaderName::Cached
    &&& ls[0].dirs@.len() == 0
    &&& ls[0].templates@.len() == 0
    &&& ls[0].loaders@.len() == if app_dirs {
        2int
    } else {
        1int
    }
    &&& ls[0].loaders@[0].name == LoaderName::FileSystem
    &&& ls[0].loaders@[0].dirs@ == dirs
    &&& ls[0].loaders@[0].templates@.len() == 0
    &&& ls[0].loaders@[0].loaders@.len() == 0
    &&& app_dirs ==> bare(ls[0].loaders@[1], LoaderName::AppDirs)
}

/// Sets up the engine's loaders from its directories `dirs`, its `app_dirs` flag and the
/// `loaders` it is given, if any: given loaders may not come with `app_dirs`, and are set up one
/// by one, the first that cannot be refusing them all; without them the default loaders are set
/// up.
#[verifier::loop_isolation(false)]
pub fn engine_loaders(dirs: Vec<String>, app_dirs: bool, loaders: Option<Vec<LoaderSetting>>) -> (r:
    Result<Vec<Loader>, EngineError>)
    ensures
        loaders is Some && app_dirs ==> r matches Err(EngineError::ImproperlyConfigured),
        loaders is None ==> (r matches Ok(ls) && default_loaders(dirs@, app_dirs, ls@)),
        !app_dirs ==> (loaders matches Some(given) ==> match r {
            Ok(ls) => ls@.len() == given@.len() && forall|i: int|
                0 <= i < given@.len() ==> loader_set_up(
                    (#[trigger] given@[i]).path@,
                    given@[i].args@,
                    given@[i].templates@,
                    Ok(ls@[i]),
                ),
            Err(EngineError::UnsupportedLoader(p)) => exists|k: int|
                0 <= k < given@.len() && !loader_known((#[trigger] given@[k]).path@, given@[k].args@)
                    && loader_set_up(given@[k].path@, given@[k].args@, given@[k].templates@, Err(p))
                    && forall|j: int|
                    0 <= j < k ==> loader_known((#[trigger] given@[j]).path@, given@[j].args@),
            Err(EngineError::ImproperlyConfigured) => false,
        }),
{
    match loaders {
        Some(given) => {
            if app_dirs {
                return Err(EngineError::ImproperlyConfigured);
            }
            let ghost all = given@;
            let mut given = given;
            let mut rest: Vec<LoaderSetting> = Vec::new();
            while given.len() > 0
                invariant
                    given@ + rest@.reverse() == all,
                decreases given@.len(),
            {
                let s = given.pop().unwrap();
                rest.push(s);
                proof {
                    assert(given@ + rest@.reverse() =~= all);
                }
            }
            assert(rest@.reverse() =~= all);
            let mut out: Vec<Loader> = Vec::new();
            while rest.len() > 0
                invariant
                    out@.len() + rest@.len() == all.len(),
                    rest@.reverse() =~= all.skip(out@.len() as int),
                    forall|i: int|
                        0 <= i < out@.len() ==> loader_set_up(
                            (#[trigger] all[i]).path@,
                            all[i].args@,
                            all[i].templates@,
                            Ok(out@[i]),
                        ),
                    forall|i: int| 0 <= i < out@.len() ==> loader_known((#[trigger] all[i]).path@, all[i].args@),
                decreases rest@.len(),
            {
                let ghost before = rest@;
                let ghost k = out@.len() as int;
                let s = rest.pop().unwrap();
                proof {
                    assert(before.reverse()[0] == before[before.len() - 1]);
                    assert(all.skip(k)[0] == all[k]);
                    assert(s == all[k]);
                    assert(rest@ =~= before.drop_last());
                    assert forall|j: int| 0 <= j < rest@.len() implies rest@.reverse()[j] == all.skip(
                        k + 1,
                    )[j] by {
                        assert(before.reverse()[j + 1] == all.skip(k)[j + 1]);
                    }
                    assert(rest@.reverse() =~= all.skip(k + 1));
                }
                let LoaderSetting { path, args, templates } = s;
                match map_loader(path.as_str(), args, templates) {
                    Ok(l) => {
                        out.push(l);
                    },
                    Err(p) => {
                        return Err(EngineError::UnsupportedLoader(p));
                    },
                }
            }
            Ok(out)
        },
        None => {
            let file_system = Loader {
                name: LoaderName::FileSystem,
                dirs,
                templates: Vec::new(),
                loaders: Vec::new(),
            };
            let mut inner: Vec<Loader> = Vec::new();
            inner.push(file_system);
            if app_dirs {
                inner.push(bare_loader(LoaderName::AppDirs));
            }
            let mut ls: Vec<Loader> = Vec::new();
            ls.push(
                Loader { name: LoaderName::Cached, dirs: Vec::new(), templates: Vec::new(), loaders: inner },
            );
            Ok(ls)
        },
    }
}

} // verus!
