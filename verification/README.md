# wiki_cli

Search and read Wikipedia from the terminal. The library (`src/`) holds the
text work, verified with Verus; the program (`app/`) parses arguments, talks
HTTP, asks the terminal for its width and runs the pager.

Modules of the library:

- `text`: character sequences: whitespace, trimming, searching, lines, split, join, replace.
- `paint`: terminal styles through `colored`; each call may keep the text or wrap it in escape codes.
- `markup`: reference markers, superscripts, footnote lines, headings and tables.
- `links`: link markers, the article title a URL names, and `style_links`.
- `article`: html2text's tagged lines to marked text, and `postprocess`.
- `format`: search results, summaries and the page heading, as printed.
- `api`: the API's records, its URLs, and the summary lookup (direct, then by search).
- `pager`: which pager runs, with which arguments.
