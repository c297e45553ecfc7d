# mupdf_mini_rs

The core of a minimalist MuPDF document viewer, written in Verus.

- `src/` is the verified library:
  - `render.rs`: rendered pages as RGBA8 buffers, packing into 32-bit
    pixels, search-hit highlighting and compositing a page centered on a
    backdrop;
  - `viewer.rs`: the interactive viewer's keyboard/wheel state machine
    (navigation, zoom requests, rotation, fit-to-width, search box, hit
    cycling) and drawing a page with its hits into the window framebuffer;
  - `document.rs`: page-count and page-index checks, joining page texts into
    the document's text, and names of exported page images;
  - `text.rs`: Unicode whitespace trimming and decimal numerals;
  - `error.rs`: the library's errors and their messages.
- `app/` is the program around it: opening and rendering documents with
  MuPDF, transform matrices and the pixel boxes of search hits (floating
  point), the winit/softbuffer window, and the command line.
- `tests/` exercises the library on concrete values.
