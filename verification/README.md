# mailviewer_core

Reading and sanitizing of `.eml` and Outlook `.msg` messages, without a toolkit,
with contracts that Verus proves.

## What is in here

`src/` is the library.

- `message`: mails (`electronicmail`, from the MIME structure in `mime`), Outlook
  messages (`outlook`, and which files can be read in `compound`), what both have in
  common (`message`), calling off the reading (`cancellation`), attachments and the
  names they are saved under (`attachment`), dates (`date`), reading a file chunk by
  chunk (`reader`), and the folders attachments are extracted to (`session`).
- `html`: turning the html of a message into something safe to render, plus the
  content security policy that keeps a message from reaching the network. The
  sanitizer itself is [ammonia](https://crates.io/crates/ammonia) (`sanitizer`); the
  inline images are handled in `images`.
- `codec`, `text`, `utils`: encodings, text, and the scheme of an uri.

Functions named `law_...` state what holds of several functions together.

`app/` is ordinary Rust around it: files through gio, mails through gmime. It needs
`libgmime-3.0-dev` and `libglib2.0-dev`.

## What is taken on trust

The outside functions that the library calls, each behind one declaration whose doc
comment says what is claimed of it: `ammonia` (sanitizing, escaping), `base64`, `hex`,
`encoding_rs`, `msg_parser`, `uuid`, and three functions of the standard library.
