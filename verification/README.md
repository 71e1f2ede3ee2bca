# markrust_wysiwyg

The WYSIWYG surface of a Markdown editor, in verified Rust. The text stays
Markdown source; the surface paints it formatted, hides delimiters, brackets,
fences and tags, and shows them where the caret or a selection is.

`src/` is the library. Every function states what it returns, and Verus proves
it. The public proof functions state what holds of the surface as a whole.

| Part | Modules |
| --- | --- |
| Documents and what a parser says of them | `tree`, `walk` |
| Which source is revealed | `caret`, `spans`, `wrap`, `links`, `html_tags`, `prefix` |
| Layouts: painted text and its source map | `style`, `layout`, `leaf`, `chrome`, `block_layout`, `html_block`, `code` |
| What each block shows | `scene`, `paragraph`, `inline_layout` |
| Rows, carets, pointer and IME | `geometry`, `visual`, `element`, `ime`, `vertical`, `draft` |
| Images: destinations, bytes, network | `image_source`, `raster`, `approve`, `remote`, `collect`, `path`, `hex`, `caseless`, `pieces` |
| Text and bytes | `text`, `bytes`, `ascii` |

Lengths on screen are integers: one pixel is 65536 units (`geometry::PX`).

`tests/` runs the library, most of it through a small Markdown reader in
`tests/block_text.rs`. `app/` connects it to the window system, the Markdown
parser, the file system and the network.
