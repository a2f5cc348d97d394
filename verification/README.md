# faster-beamer

An incremental compiler for LaTeX Beamer slides. Every frame of a presentation is typeset as a
document of its own, typeset frames are kept in a cache, and only those that changed are typeset
again. The output is the frame that changed last, the joined PDFs of all frames, or the source
typeset with the PDFs in place of the frames. SyncTeX files are rewritten to lead to the source.

## Layout

- `src/` is the library: everything that is computed or decided, with contracts that Verus proves.
  - `text`, `lines`, `search`, `numbers`: texts as sequences of characters
  - `path_parts`, `paths`, `path_text`, `path_order`: paths as they are written, and as the components
    that Unix or Windows reads them as
  - `tex`, `patterns`, `context`, `presentation`, `frames`, `sections`: what a LaTeX source holds
  - `prepare`, `document`, `united`: the documents that are typeset
  - `related`, `artifacts`, `digest`: what a document depends on, and whether it can be used again
  - `sync_map`, `synctex`, `gzip`, `logs`: lines of generated files, and where they come from
  - `latexcompile`, `options`, `plan`, `process_file`: which commands are run, and in which order
  - `fs_utils`, `cleanup`, `guard`: staging, publishing, cleaning up, and watchers
- `app/` is the program: arguments, files, processes, sockets and threads.
- `tests/` runs the library on given values.

## What is proved

Each module states what its functions return over mathematical models: texts are sequences of
characters, paths are texts with the sequences of components that they are read as, generated files
come with maps from their lines to those of the source. The proof functions whose names start with
`law_` state what holds beyond single functions, such as:

- a line of a frame is found in the generated document, and that line leads back to the frame
- what stands before the first frame of a united document, and every frame in it, leads back to the
  source, and so does every line that is copied, by the number that it is counted as
- the first command of a build that fails ends it, and a build succeeds where all of them do
- every frame is typeset or was typeset before, and none is typeset twice in one build
- every build ends, and nothing is published of one in which a frame failed
- a manifest or the metadata of a watcher that is written is read back the same, and a path that is
  made of others is written as it is read
- cleaning up stays inside the cache and away from what is in use, and removes the cache once
- while a watcher is registered, a build with its options is handed over to it

## What is taken for granted

The library calls `regex`, `md5` and `flate2`, and three functions of the standard library that
Verus has no specification for. What is assumed of each of these calls stands at the function that
makes it.
