# django_rusty_templates

Pieces of a Django template engine in Rust, with their behaviour stated as Verus contracts and
proved.

- `src/text.rs`: UTF-8 byte lengths of character sequences, byte offsets that fall between
  characters, and the string scanning that the lexers share (`find`, `trim`, splitting at a
  byte offset).
- `src/types.rs`: the template source and the spans into it; the dotted parts of a variable.
- `src/lex/`: the lexers of block tags: `lex_tag` splits `{% name args %}`, then one lexer per
  tag (`autoescape`, `for`, `if`, `url`, and tags of template libraries). Each lexer is modelled
  by a step function on its remaining text and byte offset; `next` and `collect` are proved to
  follow the model, and laws state what the tokens of a tag's arguments are (inside the tag
  and in order, the order of their kinds, where errors stand, what their texts read).
- `src/parse.rs`: the parser's decisions: which block tag a tag is, which filter a filter name
  is, the parameters that a library's tag function must take, binding a library tag's arguments
  to those parameters, the heads of `{% for %}` and `{% url %}`, and the integer value of a
  number literal. `parse_tag` reads a block tag's head and, by its kind, lexes and parses a
  `url`, `for` or `if` tag; `parse_for_variable` tells a variable that reads `forloop` inside loops from a
  plain one.
- `src/numeric.rs`: which number literals read as floats, by the grammar that `f64::from_str`
  documents; with the integers that `num-bigint` reads, this decides which number literals the
  parser rejects as invalid numbers (in `if` conditions, `url` arguments and library tags).
- `src/parse_if.rs`: the condition of `{% if %}`, read into words and operators and parsed by
  binding power.
- `src/render/`: the state that rendering keeps: the `forloop` counters, the stack of loops,
  the variables in scope, strings that are escaped for HTML when they are output, and how
  `and`, `or` and `not` combine their operands, and how conditions compare integers, booleans and
  strings.
- `src/loaders.rs`: joining a template name to a template directory. Normalizing a path is
  stated component by component, and laws show that a joined path that is accepted has the
  directory's components first and no `..` after them, and that a name going up with `..` into
  a sibling of the directory is refused.
- `src/engine.rs`: how the engine sets up its template loaders from its settings: the loader
  that each dotted path names, the default cached loader, and the settings it refuses.
- `app/`: what stays outside the verified library: error types with `miette` diagnostics,
  arguments that hold big integers and floats (with the float reading of number literals), and
  the current directory for template paths.

The tests under `tests/` run the library on examples.
