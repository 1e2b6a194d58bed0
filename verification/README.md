# ignore-rm

Finds the files that Git ignores in a working tree and in its submodules, lists
them, and deletes them once the user has confirmed it.

`src/` is the library. It is verified with Verus and does no I/O: where the file
system, Git or the user has to be asked, a function of the library returns a
step that says what to do, and a method of that step takes the answer and
returns the next one.

- `path`: POSIX paths as byte strings, and the lexical operations on them.
- `text`: UTF-8, lines, and the order of names.
- `error`: errors as plain values.
- `repository`: the search for the topmost repository.
- `picker`: picking a folder from menus.
- `ignored`, `ignored_laws`: collecting the ignored paths at or below a path, in a
  repository and in the submodules that the path reaches, and what a whole
  collection amounts to.
- `delete`: deleting a list of paths.
- `prompt`, `session`: the questions to the user, and what becomes of the
  collected paths.

`app/` is the program around it: it performs the steps and hands back what came
of them. It runs on Unix, where paths are the bytes that the library takes them
for.
