# clipboard_utils

Text, HTML and image handling for a clipboard manager, verified with Verus.

## Layout

- `src/` is the library. Every function states what it returns in `ensures`, over spec functions on
  sequences of characters and bytes.
  - `chars`, `text`: characters and strings.
  - `codecs`, `regexes`: what other crates and the standard library compute. The items marked
    `external_body` and the `assume_specification` items are believed without proof; their doc
    comments say what they claim.
  - `layout`, `render`, `office`, `cf_html`, `plain_text`: plain text out of clipboard text, with its
    headers, markup and office noise.
  - `rich_text`, `preview`, `markers`: rich entries, their previews, and the comments in which their
    markup carries an image and other formats.
  - `images`, `image_search`, `image_links`: images that markup refers to.
  - `detect`, `cleanup`, `policies`: kinds of content, sensitive content, cleanup rules and the
    policies of applications.
- `app/` reads files, asks other hosts and reads and writes JSON for the library.
- `tests/` runs the library.

## Texts without an answer

The text behind a `HTML Format` header may be markup that carries a header again. A text that comes up
again behind its own header has no plain text, and a header whose offsets cut a character in two has
no meaning. Some functions require that there is an answer; their twins with `try_` in their names
give `None` where there is none, and so do the functions on the way there.
