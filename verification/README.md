# lita_tokenizers

Tokenizer utilities with a verified core, written in Verus.

- `src/` is the library, verified by Verus: the delimiters of tokenized text, tag and token
  normalization (NFKC and delimiter replacement), decoding of input text, and the reading of the
  output of the whitespace, KyTea and MeCab tokenizers as token streams. Each public function
  states what it returns in `ensures`; the public proof functions state the laws that hold across
  functions, such as that written output reads back unambiguously.
- `app/` is the command-line program around the library: argument parsing and file I/O.
- `tests/` runs the library on concrete inputs.
