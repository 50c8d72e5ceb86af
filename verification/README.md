# MD Reader

A native Markdown reader whose document logic is verified with Verus.

- `src/` is the verified library `mdreader`:
  - `text`, `lines`: the character model (whitespace, trimming, UTF-8
    widths, line splitting) the rules are stated over;
  - `markdown`: code fences and ATX headings of a single line;
  - `preprocess`: heading anchors, the outline, and Mermaid fences replaced
    by their renderings; `preprocess_laws` and `anchors` state the result
    line by line (which lines are headings outside code fences, what the
    output is, and that every outline id reads back from its anchor);
  - `pages`: splitting a document into pages, placing the outline on them,
    and the counts shown in the status bar; `pages_laws` states each page
    as the shortest run of lines that may form one;
  - `names`: which files are Markdown documents and how they are shown;
  - `tree`, `tree_laws`, `listing`: the workspace tree and the flat file
    list, with the laws that keep them ordered and complete, what adding a
    file changes, what the file filter keeps, and which file comes first;
  - `mermaid`, `links`: the Markdown placed around rendered diagrams, cache
    file names, link and image resolution, and `data:` URIs;
  - `session`, `paths`: recent documents, which background load is current,
    drops and shortcuts; paths are compared component by component.
- `app/` is the window (eframe/egui), file and folder I/O, the Mermaid
  renderer, and the commands of the web front end.
- `tests/` exercises the library with the outside crates linked.
