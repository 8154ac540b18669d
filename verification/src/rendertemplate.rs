//! Template rendering for `{name}` style placeholders.
//!
//! A template is scanned left to right: text before a `{` is literal, the
//! text between a `{` and the next `}` names a placeholder, and an opening
//! `{` that is never closed swallows the rest of the template. There are no
//! escape sequences, and a `}` without a preceding `{` is ordinary text.
//!
//! [`SimpleParser`] produces the tokens one at a time as slices of the input
//! string; [`render_str`] (and its alias [`render`]) resolves each
//! placeholder through a pluggable [`Render`] implementation and
//! concatenates the surviving text. Placeholders the resolver declines, and
//! unterminated placeholders, are dropped from the output.
//!
//! The specification-level model is [`tokenize`], which maps the template's
//! character sequence to a sequence of [`Token`]s, and [`render_template`],
//! which says exactly what rendering returns.

use vstd::prelude::*;

verus! {

/// Specification-level token: what one parsed piece of a template means.
///
/// `Literal`, `Placeholder` and `Unterminated` hold characters of the
/// template itself; `Rendered` holds text a resolver produced.
#[verifier::ext_equal]
pub enum Token {
    /// A run of ordinary text.
    Literal(Seq<char>),
    /// The name between `{` and `}`.
    Placeholder(Seq<char>),
    /// Resolver-produced replacement text.
    Rendered(Seq<char>),
    /// Everything after a `{` that is never closed.
    Unterminated(Seq<char>),
}

/// Executable token over slices of the parsed template.
///
/// Only `Rendered` owns its text; the other variants borrow from the
/// template, so parsing makes no copies.
#[derive(Debug, PartialEq, Eq)]
pub enum SimpleToken<'a> {
    /// A run of ordinary text.
    Literal(&'a str),
    /// The name between `{` and `}`.
    Placeholder(&'a str),
    /// Resolver-produced replacement text.
    Rendered(String),
    /// Everything after a `{` that is never closed.
    Unterminated(&'a str),
}

impl<'a> View for SimpleToken<'a> {
    type V = Token;

    open spec fn view(&self) -> Token {
        match self {
            SimpleToken::Literal(s) => Token::Literal(s@),
            SimpleToken::Placeholder(s) => Token::Placeholder(s@),
            SimpleToken::Rendered(s) => Token::Rendered(s@),
            SimpleToken::Unterminated(s) => Token::Unterminated(s@),
        }
    }
}

/// Index of the first occurrence of `c` in `t` at or after `from`.
pub open spec fn find_char(t: Seq<char>, c: char, from: int) -> Option<int>
    decreases t.len() - from,
{
    if from < 0 || from >= t.len() {
        None
    } else if t[from] == c {
        Some(from)
    } else {
        find_char(t, c, from + 1)
    }
}

/// What `find_char` returns: an in-bounds first hit, or no hit at all.
pub proof fn lemma_find_char(t: Seq<char>, c: char, from: int)
    requires
        from >= 0,
    ensures
        match find_char(t, c, from) {
            Some(i) => from <= i < t.len() && t[i] == c && (forall|j: int|
                from <= j < i ==> t[j] != c),
            None => forall|j: int| from <= j < t.len() ==> t[j] != c,
        },
    decreases t.len() - from,
{
    if from < 0 || from >= t.len() {
    } else if t[from] == c {
    } else {
        lemma_find_char(t, c, from + 1);
    }
}

/// The token sequence of a template, per the scanning rules above.
pub open spec fn tokenize(t: Seq<char>) -> Seq<Token>
    decreases t.len(),
{
    if t.len() == 0 {
        Seq::empty()
    } else if t[0] == '{' {
        match find_char(t, '}', 1) {
            Some(i) => {
                proof {
                    lemma_find_char(t, '}', 1);
                }
                seq![Token::Placeholder(t.subrange(1, i))] + tokenize(
                    t.subrange(i + 1, t.len() as int),
                )
            },
            None => seq![Token::Unterminated(t.subrange(1, t.len() as int))],
        }
    } else {
        match find_char(t, '{', 1) {
            Some(j) => {
                proof {
                    lemma_find_char(t, '{', 1);
                }
                seq![Token::Literal(t.subrange(0, j))] + tokenize(t.subrange(j, t.len() as int))
            },
            None => seq![Token::Literal(t)],
        }
    }
}

/// Placeholder-parsing iterator over slices of the original string.
///
/// Each call of [`SimpleParser::next`] peels the first token of
/// [`tokenize`] off the text that is still to be parsed.
pub struct SimpleParser<'a> {
    /// Text still to be parsed.
    text: &'a str,
}

impl<'a> View for SimpleParser<'a> {
    type V = Seq<char>;

    closed spec fn view(&self) -> Seq<char> {
        self.text@
    }
}

/// First occurrence of `c` in `s` at or after `from`, as an index.
pub fn find_char_at(s: &str, c: char, from: usize) -> (r: Option<usize>)
    ensures
        match r {
            Some(i) => find_char(s@, c, from as int) == Some(i as int),
            None => find_char(s@, c, from as int) is None,
        },
{
    let n = s.unicode_len();
    let mut i = from;
    while i < n
        invariant
            from <= i,
            n == s@.len(),
            find_char(s@, c, from as int) == find_char(s@, c, i as int),
        decreases n - i,
    {
        if s.get_char(i) == c {
            return Some(i);
        }
        i = i + 1;
    }
    None
}

impl<'a> SimpleParser<'a> {
    /// Parser over the whole of `text`.
    pub fn new(text: &'a str) -> (p: Self)
        ensures
            p@ == text@,
    {
        SimpleParser { text }
    }

    /// Splits off the first `len` characters and keeps the rest.
    fn chunk(&mut self, len: usize) -> (ret: &'a str)
        requires
            len <= old(self)@.len(),
        ensures
            ret@ == old(self)@.subrange(0, len as int),
            final(self)@ == old(self)@.subrange(len as int, old(self)@.len() as int),
    {
        let text: &'a str = self.text;
        let n = text.unicode_len();
        let ret = text.substring_char(0, len);
        self.text = text.substring_char(len, n);
        ret
    }

    /// Splits off the characters in `begin..end`, dropping `skip_after`
    /// characters after them, and keeps the rest.
    fn chunk_skip(&mut self, begin: usize, end: usize, skip_after: usize) -> (ret: &'a str)
        requires
            begin <= end,
            end + skip_after <= old(self)@.len(),
        ensures
            ret@ == old(self)@.subrange(begin as int, end as int),
            final(self)@ == old(self)@.subrange(
                end + skip_after,
                old(self)@.len() as int,
            ),
    {
        let text: &'a str = self.text;
        let n = text.unicode_len();
        let ret = text.substring_char(begin, end);
        self.text = text.substring_char(end + skip_after, n);
        ret
    }

    /// Takes everything that is left and leaves the parser empty.
    fn rest(&mut self) -> (ret: &'a str)
        ensures
            ret@ == old(self)@,
            final(self)@.len() == 0,
    {
        let ret: &'a str = self.text;
        self.text = "";
        proof {
            reveal_strlit("");
        }
        ret
    }

    /// Takes everything after the first `n` characters and leaves the
    /// parser empty.
    fn rest_skip(&mut self, n: usize) -> (ret: &'a str)
        requires
            n <= old(self)@.len(),
        ensures
            ret@ == old(self)@.subrange(n as int, old(self)@.len() as int),
            final(self)@.len() == 0,
    {
        let text: &'a str = self.text;
        let len = text.unicode_len();
        let ret = text.substring_char(n, len);
        self.text = "";
        proof {
            reveal_strlit("");
        }
        ret
    }

    /// The next token of the text still to be parsed, or `None` once the
    /// text is exhausted. The token returned is exactly the head of
    /// [`tokenize`] of the remaining text.
    pub fn next(&mut self) -> (r: Option<SimpleToken<'a>>)
        ensures
            match r {
                None => old(self)@.len() == 0 && final(self)@ == old(self)@,
                Some(tok) => {
                    &&& tokenize(old(self)@) == seq![tok@] + tokenize(final(self)@)
                    &&& final(self)@.len() < old(self)@.len()
                },
            },
    {
        let text: &'a str = self.text;
        let n = text.unicode_len();
        if n == 0 {
            return None;
        }
        let ghost t = self.text@;
        if text.get_char(0) == '{' {
            match find_char_at(text, '}', 1) {
                Some(i) => {
                    proof {
                        lemma_find_char(t, '}', 1);
                    }
                    let tok = self.chunk_skip(1, i, 1);
                    proof {
                        assert(tokenize(t) == seq![Token::Placeholder(t.subrange(1, i as int))]
                            + tokenize(t.subrange(i + 1, t.len() as int)));
                    }
                    Some(SimpleToken::Placeholder(tok))
                },
                None => {
                    let tok = self.rest_skip(1);
                    proof {
                        assert(final(self)@ =~= t.subrange(t.len() as int, t.len() as int));
                        assert(tokenize(final(self)@) =~= Seq::<Token>::empty());
                        assert(tokenize(t) =~= seq![Token::Unterminated(
                            t.subrange(1, t.len() as int),
                        )] + tokenize(final(self)@));
                    }
                    Some(SimpleToken::Unterminated(tok))
                },
            }
        } else {
            match find_char_at(text, '{', 1) {
                Some(j) => {
                    proof {
                        lemma_find_char(t, '{', 1);
                    }
                    let tok = self.chunk(j);
                    proof {
                        assert(tokenize(t) == seq![Token::Literal(t.subrange(0, j as int))]
                            + tokenize(t.subrange(j as int, t.len() as int)));
                    }
                    Some(SimpleToken::Literal(tok))
                },
                None => {
                    let tok = self.rest();
                    proof {
                        assert(tokenize(final(self)@) =~= Seq::<Token>::empty());
                        assert(tokenize(t) =~= seq![Token::Literal(t)] + tokenize(final(self)@));
                    }
                    Some(SimpleToken::Literal(tok))
                },
            }
        }
    }
}

/// Capability to resolve a placeholder name to an optional value.
///
/// Returning `None` means the placeholder is dropped from the output rather
/// than echoed. Implementations exist for plain key-value pair lists and for
/// the entry-processing context.
pub trait Render {
    /// What this resolver maps `name` to, if anything.
    spec fn resolve_spec(&self, name: Seq<char>) -> Option<Seq<char>>;

    /// Resolves `name`, exactly as [`Render::resolve_spec`] says.
    fn render(&self, name: &str) -> (r: Option<String>)
        ensures
            match r {
                Some(v) => self.resolve_spec(name@) matches Some(u) && v@ == u,
                None => self.resolve_spec(name@) is None,
            },
    ;
}

/// A string-like value that may or may not be present.
///
/// Lets placeholder-rendering code treat an optional resolver result and a
/// plain string uniformly: a plain string is always present, an `Option` is
/// its own answer.
pub trait OptionalStr: Sized {
    /// The value, if present.
    spec fn value_spec(&self) -> Option<Seq<char>>;

    /// The value, if present, exactly as [`OptionalStr::value_spec`] says.
    fn value(self) -> (r: Option<String>)
        ensures
            match r {
                Some(v) => self.value_spec() matches Some(u) && v@ == u,
                None => self.value_spec() is None,
            },
    ;
}

impl OptionalStr for String {
    open spec fn value_spec(&self) -> Option<Seq<char>> {
        Some(self@)
    }

    fn value(self) -> (r: Option<String>) {
        Some(self)
    }
}

impl OptionalStr for Option<String> {
    open spec fn value_spec(&self) -> Option<Seq<char>> {
        match self {
            Some(s) => Some(s@),
            None => None,
        }
    }

    fn value(self) -> (r: Option<String>) {
        self
    }
}

/// The text a token contributes to rendered output: literal and rendered
/// text count, placeholders and unterminated openers are dropped.
pub open spec fn token_display(t: Token) -> Seq<char> {
    match t {
        Token::Literal(s) => s,
        Token::Rendered(s) => s,
        Token::Placeholder(_) => Seq::empty(),
        Token::Unterminated(_) => Seq::empty(),
    }
}

/// The raw text of a token, placeholder names included.
pub open spec fn token_raw(t: Token) -> Seq<char> {
    match t {
        Token::Literal(s) => s,
        Token::Rendered(s) => s,
        Token::Placeholder(s) => s,
        Token::Unterminated(s) => s,
    }
}

/// Text tokens that may be placeholders.
pub trait RenderToken {
    /// The token this value stands for.
    spec fn token_spec(&self) -> Token;

    /// Whether this token is a placeholder to be expanded.
    fn is_placeholder(&self) -> (b: bool)
        ensures
            b == (self.token_spec() is Placeholder),
    ;

    /// The token's text, placeholder names included.
    fn raw_ref(&self) -> (s: &str)
        ensures
            s@ == token_raw(self.token_spec()),
    ;

    /// The token's text as it appears in rendered output.
    fn display_ref(&self) -> (s: &str)
        ensures
            s@ == token_display(self.token_spec()),
    ;
}

impl<'a> RenderToken for SimpleToken<'a> {
    open spec fn token_spec(&self) -> Token {
        self@
    }

    fn is_placeholder(&self) -> (b: bool) {
        match self {
            SimpleToken::Placeholder(_) => true,
            _ => false,
        }
    }

    fn raw_ref(&self) -> (s: &str) {
        match self {
            SimpleToken::Literal(s) => s,
            SimpleToken::Placeholder(s) => s,
            SimpleToken::Unterminated(s) => s,
            SimpleToken::Rendered(s) => s.as_str(),
        }
    }

    fn display_ref(&self) -> (s: &str) {
        proof {
            reveal_strlit("");
            assert(""@ =~= Seq::<char>::empty());
        }
        match self {
            SimpleToken::Literal(s) => s,
            SimpleToken::Rendered(s) => s.as_str(),
            SimpleToken::Placeholder(_) => "",
            SimpleToken::Unterminated(_) => "",
        }
    }
}

/// The resolution function of a resolver, as a plain function from
/// placeholder names to optional values.
pub open spec fn resolver_of<R: Render + ?Sized>(r: &R) -> spec_fn(Seq<char>) -> Option<
    Seq<char>,
> {
    |name: Seq<char>| r.resolve_spec(name)
}

/// What one token becomes under resolution function `f`: a resolved
/// placeholder turns into rendered text, an unresolved one and every other
/// token pass through.
pub open spec fn rendered_token(f: spec_fn(Seq<char>) -> Option<Seq<char>>, t: Token) -> Token {
    match t {
        Token::Placeholder(name) => match f(name) {
            Some(v) => Token::Rendered(v),
            None => Token::Placeholder(name),
        },
        _ => t,
    }
}

/// Resolver-side view of token rewriting: placeholders are replaced through
/// the resolver, all other tokens pass through unchanged.
pub trait RenderPlaceholder: Render + Sized {
    /// Rewrites one token, exactly as [`rendered_token`] says.
    fn render_placeholder<'a>(&self, tok: SimpleToken<'a>) -> (r: SimpleToken<'a>)
        ensures
            r@ == rendered_token(resolver_of(self), tok@),
    ;
}

impl<R: Render> RenderPlaceholder for R {
    fn render_placeholder<'a>(&self, tok: SimpleToken<'a>) -> (r: SimpleToken<'a>) {
        if tok.is_placeholder() {
            match self.render(tok.raw_ref()).value() {
                Some(v) => SimpleToken::Rendered(v),
                None => tok,
            }
        } else {
            tok
        }
    }
}

/// The output of rendering a token sequence: each token is rewritten through
/// the resolution function and the surviving text is concatenated.
pub open spec fn render_tokens(
    f: spec_fn(Seq<char>) -> Option<Seq<char>>,
    toks: Seq<Token>,
) -> Seq<char>
    decreases toks.len(),
{
    if toks.len() == 0 {
        Seq::empty()
    } else {
        token_display(rendered_token(f, toks[0])) + render_tokens(f, toks.drop_first())
    }
}

/// What rendering template `t` against resolution function `f` returns.
pub open spec fn render_with(f: spec_fn(Seq<char>) -> Option<Seq<char>>, t: Seq<char>) -> Seq<
    char,
> {
    render_tokens(f, tokenize(t))
}

/// What rendering template `t` against resolver `r` returns.
pub open spec fn render_template<R: Render + ?Sized>(r: &R, t: Seq<char>) -> Seq<char> {
    render_with(resolver_of(r), t)
}

/// Something that renders completely against a resolver, consumed in the
/// rendering.
pub trait RenderTo<R: Render>: Sized {
    /// The text still to be rendered.
    spec fn render_source(&self) -> Seq<char>;

    /// Renders everything that is left against `resolver`.
    fn render_to(self, resolver: &R) -> (out: String)
        ensures
            out@ == render_template(resolver, self.render_source()),
    ;
}

/// A parser renders by resolving each of its remaining tokens and
/// concatenating the surviving text.
impl<'a, R: Render> RenderTo<R> for SimpleParser<'a> {
    open spec fn render_source(&self) -> Seq<char> {
        self@
    }

    fn render_to(self, resolver: &R) -> (out: String) {
        let ghost source = self@;
        let mut parser = self;
        let mut out = String::new();
        loop
            invariant
                out@ + render_tokens(resolver_of(resolver), tokenize(parser@))
                    == render_template(resolver, source),
            ensures
                out@ == render_template(resolver, source),
            decreases parser@.len(),
        {
            let ghost before = tokenize(parser@);
            match parser.next() {
                None => {
                    proof {
                        assert(render_tokens(resolver_of(resolver), before)
                            =~= Seq::<char>::empty());
                        assert(out@ + render_tokens(resolver_of(resolver), before) =~= out@);
                    }
                    break ;
                },
                Some(tok) => {
                    let ghost raw = tok@;
                    let ghost after = tokenize(parser@);
                    let tok = resolver.render_placeholder(tok);
                    proof {
                        assert(before == seq![raw] + after);
                        assert(before[0] == raw);
                        assert(before.drop_first() =~= after);
                        assert(render_tokens(resolver_of(resolver), before) == token_display(
                            rendered_token(resolver_of(resolver), raw),
                        ) + render_tokens(resolver_of(resolver), after));
                    }
                    let ghost out0 = out@;
                    match tok {
                        SimpleToken::Literal(s) => out.append(s),
                        SimpleToken::Rendered(s) => out.append(s.as_str()),
                        SimpleToken::Placeholder(_) => (),
                        SimpleToken::Unterminated(_) => (),
                    }
                    proof {
                        assert(out@ =~= out0 + token_display(
                            rendered_token(resolver_of(resolver), raw),
                        ));
                        assert(out@ + render_tokens(resolver_of(resolver), after) =~= out0
                            + render_tokens(resolver_of(resolver), before));
                    }
                },
            }
        }
        out
    }
}

/// Renders a template string: parses it, resolves each placeholder through
/// `resolver`, and concatenates the surviving text. Placeholders the
/// resolver declines, and unterminated placeholders, render as nothing.
pub fn render_str<R: Render>(text: &str, resolver: &R) -> (out: String)
    ensures
        out@ == render_template(resolver, text@),
{
    SimpleParser::new(text).render_to(resolver)
}

/// Renders a template string against a resolver; see [`render_str`].
pub fn render<R: Render>(text: &str, resolver: &R) -> (out: String)
    ensures
        out@ == render_template(resolver, text@),
{
    render_str(text, resolver)
}

/// Something a [`SimpleParser`] can be made from.
pub trait SimpleParse {
    /// The characters to be parsed.
    spec fn parse_view(&self) -> Seq<char>;

    /// A parser over this value's text.
    fn parse_simple(&self) -> (p: SimpleParser<'_>)
        ensures
            p@ == self.parse_view(),
    ;
}

impl SimpleParse for str {
    open spec fn parse_view(&self) -> Seq<char> {
        self@
    }

    fn parse_simple(&self) -> (p: SimpleParser<'_>) {
        SimpleParser::new(self)
    }
}

impl SimpleParse for String {
    open spec fn parse_view(&self) -> Seq<char> {
        self@
    }

    fn parse_simple(&self) -> (p: SimpleParser<'_>) {
        SimpleParser::new(self.as_str())
    }
}

/// First-match lookup in a key-value pair list.
pub open spec fn lookup(pairs: Seq<(String, String)>, name: Seq<char>) -> Option<Seq<char>>
    decreases pairs.len(),
{
    if pairs.len() == 0 {
        None
    } else if pairs[0].0@ == name {
        Some(pairs[0].1@)
    } else {
        lookup(pairs.drop_first(), name)
    }
}

/// Key-value pair lists resolve a placeholder to the value of its first
/// matching key.
impl Render for Vec<(String, String)> {
    open spec fn resolve_spec(&self, name: Seq<char>) -> Option<Seq<char>> {
        lookup(self@, name)
    }

    fn render(&self, name: &str) -> (r: Option<String>) {
        let name_string = String::from_str(name);
        let n = self.len();
        let mut i: usize = 0;
        proof {
            assert(self@.skip(0) =~= self@);
        }
        while i < n
            invariant
                i <= n,
                n == self@.len(),
                name_string@ == name@,
                lookup(self@, name@) == lookup(self@.skip(i as int), name@),
            decreases n - i,
        {
            proof {
                assert(self@.skip(i as int)[0] == self@[i as int]);
                assert(self@.skip(i as int).drop_first() =~= self@.skip(i + 1));
            }
            if self[i].0 == name_string {
                return Some(self[i].1.clone());
            }
            i = i + 1;
        }
        proof {
            assert(self@.skip(n as int).len() == 0);
        }
        None
    }
}

} // verus!
