# derivre

A verified library that builds regular expressions over bytes, escapes them as string literals, and
matches texts against them.

- `ast`, `semantics`: regexes as they are written down, what they mean, and when they are refused.
- `builder`: `RegexBuilder`, from regexes to expressions.
- `expr`, `lang`: the set that holds expressions, and the languages of expressions. A language is
  taken under a *reading*, which says how each byte is written.
- `escape`, `json_quote`, `quote`: escape grammars (JSON, URL, XML or one's own), their normal form,
  and the expression of the escaped strings of an expression.
- `syntax`, `pattern`, `unfold`: from the text of a pattern, as `regex-syntax` parses it, to an
  expression. A pattern is first spelled out: anchors are resolved and, for a search, any text is put
  around it. Patterns that are the same then have one expression.
- `number`, `remainder`: decimal numerals of multiples.
- `derivative`, `regex`: matching, and whether anything is matched at all. How long the part of a text
  is that a lookahead took is not told.
- `pp`, `render`, `distinct`: expressions and regexes as text, and that texts tell expressions apart.
- `image`, `decoding`, `normal_form`, `laws`: what holds of all of these together. Most of all, that
  an escaped regex matches exactly the escaped forms of what the regex matches, that strings escaped
  for JSON, URLs or XML can be read in one way only, and that grammars have one normal form that
  differ only in order, in repetition and in how the ranges of the fallback are spelled.

`app/` gives the types the standard traits of formatting and errors.
