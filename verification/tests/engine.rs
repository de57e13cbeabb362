use django_rusty_templates::engine::{
    EngineError, Loader, LoaderName, LoaderSetting, engine_loaders, loader_name, map_loader,
};

const FS: &str = "django.template.loaders.filesystem.Loader";
const APP: &str = "django.template.loaders.app_directories.Loader";
const MEM: &str = "django.template.loaders.locmem.Loader";
const CACHED: &str = "django.template.loaders.cached.Loader";

fn bare(name: LoaderName) -> Loader {
    Loader { name, dirs: vec![], templates: vec![], loaders: vec![] }
}

fn setting(path: &str, args: &[&str]) -> LoaderSetting {
    LoaderSetting {
        path: path.to_string(),
        args: args.iter().map(|s| s.to_string()).collect(),
        templates: vec![],
    }
}

#[test]
fn loader_names() {
    assert_eq!(loader_name(FS), Some(LoaderName::FileSystem));
    assert_eq!(loader_name(APP), Some(LoaderName::AppDirs));
    assert_eq!(loader_name(MEM), Some(LoaderName::LocMem));
    assert_eq!(loader_name(CACHED), Some(LoaderName::Cached));
    assert_eq!(loader_name("django.template.loaders.other.Loader"), None);
}

#[test]
fn map_loader_sets_up_each_kind() {
    let l = map_loader(FS, vec!["/a".to_string()], vec![]).unwrap();
    assert_eq!(l, Loader { name: LoaderName::FileSystem, dirs: vec!["/a".to_string()], templates: vec![], loaders: vec![] });
    let templates = vec![("index.html".to_string(), "Hi".to_string())];
    let l = map_loader(MEM, vec![], templates.clone()).unwrap();
    assert_eq!(l.templates, templates);
    let l = map_loader(CACHED, vec![FS.to_string(), APP.to_string()], vec![]).unwrap();
    assert_eq!(l.loaders, vec![bare(LoaderName::FileSystem), bare(LoaderName::AppDirs)]);
    assert_eq!(map_loader("x.Loader", vec![], vec![]), Err("x.Loader".to_string()));
    assert_eq!(
        map_loader(CACHED, vec![FS.to_string(), "y".to_string(), "z".to_string()], vec![]),
        Err("y".to_string())
    );
}

#[test]
fn engine_default_loaders() {
    let ls = engine_loaders(vec!["/t".to_string()], false, None).unwrap();
    let fs = Loader { name: LoaderName::FileSystem, dirs: vec!["/t".to_string()], templates: vec![], loaders: vec![] };
    assert_eq!(ls, vec![Loader { name: LoaderName::Cached, dirs: vec![], templates: vec![], loaders: vec![fs] }]);
    let ls = engine_loaders(vec![], true, None).unwrap();
    assert_eq!(ls[0].loaders.len(), 2);
    assert_eq!(ls[0].loaders[1], bare(LoaderName::AppDirs));
}

#[test]
fn engine_given_loaders() {
    assert_eq!(
        engine_loaders(vec![], true, Some(vec![setting(FS, &[])])),
        Err(EngineError::ImproperlyConfigured)
    );
    let ls = engine_loaders(vec![], false, Some(vec![setting(APP, &[]), setting(FS, &["/d"])])).unwrap();
    assert_eq!(ls[0], bare(LoaderName::AppDirs));
    assert_eq!(ls[1].dirs, vec!["/d".to_string()]);
    assert_eq!(
        engine_loaders(vec![], false, Some(vec![setting(FS, &[]), setting("bad", &[]), setting("worse", &[])])),
        Err(EngineError::UnsupportedLoader("bad".to_string()))
    );
}
