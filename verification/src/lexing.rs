use vstd::prelude::*;
use vstd::string::StrSliceExecFns;
use vstd::string::StringSliceAdditionalSpecFns;

verus! {

broadcast use vstd::string::group_string_axioms;

/// A token of the source text, with the text it was read from.
#[derive(Debug, Clone, PartialEq, Eq, Hash)]
pub enum Token {
    Int32Literal(String),
    Keyword(String),
    Separator(String),
    Operator(String),
    Identifier(String),
}

/// The mathematical value of a `Token`.
pub enum SpecToken {
    Int32Literal(Seq<char>),
    Keyword(Seq<char>),
    Separator(Seq<char>),
    Operator(Seq<char>),
    Identifier(Seq<char>),
}

impl View for Token {
    type V = SpecToken;

    open spec fn view(&self) -> SpecToken {
        match self {
            Token::Int32Literal(s) => SpecToken::Int32Literal(s@),
            Token::Keyword(s) => SpecToken::Keyword(s@),
            Token::Separator(s) => SpecToken::Separator(s@),
            Token::Operator(s) => SpecToken::Operator(s@),
            Token::Identifier(s) => SpecToken::Identifier(s@),
        }
    }
}

/// The kind number of a token: the position of its pattern in the list the tokenizer tries.
pub open spec fn token_id(t: SpecToken) -> nat {
    match t {
        SpecToken::Int32Literal(_) => 0,
        SpecToken::Keyword(_) => 1,
        SpecToken::Separator(_) => 2,
        SpecToken::Operator(_) => 3,
        SpecToken::Identifier(_) => 4,
    }
}

/// The text of a token.
pub open spec fn token_text(t: SpecToken) -> Seq<char> {
    match t {
        SpecToken::Int32Literal(s) => s,
        SpecToken::Keyword(s) => s,
        SpecToken::Separator(s) => s,
        SpecToken::Operator(s) => s,
        SpecToken::Identifier(s) => s,
    }
}

/// The token of kind `id` (below 5) with the given text.
pub open spec fn spec_create(id: nat, content: Seq<char>) -> SpecToken {
    if id == 0 {
        SpecToken::Int32Literal(content)
    } else if id == 1 {
        SpecToken::Keyword(content)
    } else if id == 2 {
        SpecToken::Separator(content)
    } else if id == 3 {
        SpecToken::Operator(content)
    } else {
        SpecToken::Identifier(content)
    }
}

impl Token {
    pub fn id(&self) -> (r: usize)
        ensures
            r == token_id(self@),
    {
        match self {
            Token::Int32Literal(_) => 0,
            Token::Keyword(_) => 1,
            Token::Separator(_) => 2,
            Token::Operator(_) => 3,
            Token::Identifier(_) => 4,
        }
    }

    pub fn content(&self) -> (r: &str)
        ensures
            r@ == token_text(self@),
    {
        match self {
            Token::Int32Literal(content) => content.as_str(),
            Token::Keyword(content) => content.as_str(),
            Token::Separator(content) => content.as_str(),
            Token::Operator(content) => content.as_str(),
            Token::Identifier(content) => content.as_str(),
        }
    }

    /// Kind numbers are those of `Token::id`; there are five.
    pub fn create(id: usize, content: String) -> (r: Token)
        requires
            id < 5,
        ensures
            r@ == spec_create(id as nat, content@),
    {
        match id {
            0 => Token::Int32Literal(content),
            1 => Token::Keyword(content),
            2 => Token::Separator(content),
            3 => Token::Operator(content),
            _ => Token::Identifier(content),
        }
    }

    /// A copy of this token.
    pub fn duplicate(&self) -> (r: Token)
        ensures
            r@ == self@,
    {
        Token::create(self.id(), String::from_str(self.content()))
    }
}


/// Why a line could not be split into tokens.
#[derive(Debug, Clone, Copy, PartialEq, Eq, Structural)]
pub enum LexError {
    /// The source holds a character outside ASCII.
    NonAscii,
    /// No token pattern matches at a position that is not whitespace.
    UnrecognizedToken,
    /// A token pattern matched the empty text, so the tokenizer would make no progress.
    EmptyMatch,
}

/// The match of the regular expression `pattern` in `haystack` that `regex::Regex::find`
/// reports, as byte offsets `(start, end)`; `None` where there is no match or the pattern
/// does not compile.
pub uninterp spec fn spec_regex_find(pattern: Seq<char>, haystack: Seq<char>) -> Option<(usize, usize)>;

/// Compiles `pattern` with `regex::Regex::new` and searches `haystack` with
/// `regex::Regex::find`. The result is named by `spec_regex_find`; the crate's documentation
/// guarantees that a match starts no later than it ends and lies within the haystack.
#[verifier::external_body]
fn regex_find(pattern: &str, haystack: &str) -> (r: Option<(usize, usize)>)
    ensures
        r == spec_regex_find(pattern@, haystack@),
        r matches Some((start, end)) ==> start <= end <= haystack.spec_bytes().len(),
{
    match regex::Regex::new(pattern) {
        Ok(re) => match re.find(haystack) {
            Some(m) => Some((m.start(), m.end())),
            None => None,
        },
        Err(_) => None,
    }
}

/// The pattern of the token kind `id`, tried in the order of the kind numbers.
pub open spec fn spec_pattern(id: nat) -> Seq<char> {
    if id == 0 {
        "^\\d+"@
    } else if id == 1 {
        "^(?:i32|let|return|if|else|while|break|continue|for|do)"@
    } else if id == 2 {
        "^[{}();,]"@
    } else if id == 3 {
        "^(?:--|->|&&|\\|\\||==|!=|<=|>=|\\+=|-=|/=|\\*=|\\+\\+|[-~!+*/<>=?:])"@
    } else {
        "^\\w+"@
    }
}

/// The two-character operators of the language.
pub open spec fn two_char_operators() -> Seq<Seq<char>> {
    seq!["--"@, "->"@, "&&"@, "||"@, "=="@, "!="@, "<="@, ">="@, "+="@, "-="@, "/="@, "*="@, "++"@]
}

/// The one-character operators of the language.
pub open spec fn one_char_operators() -> Seq<char> {
    "-~!+*/<>=?:"@
}

/// A character as a regular expression that matches just it: escaped where the character
/// has a meaning of its own.
pub open spec fn regex_char(c: char) -> Seq<char> {
    if c == '+' || c == '*' || c == '|' || c == '?' {
        seq!['\\', c]
    } else {
        seq![c]
    }
}

/// A word as a regular expression that matches just it.
pub open spec fn regex_word(w: Seq<char>) -> Seq<char>
    decreases w.len(),
{
    if w.len() == 0 {
        Seq::empty()
    } else {
        regex_char(w[0]) + regex_word(w.drop_first())
    }
}

/// The regular expression that matches any one of the words, tried in order.
pub open spec fn alternatives(ws: Seq<Seq<char>>) -> Seq<char>
    decreases ws.len(),
{
    if ws.len() == 0 {
        Seq::empty()
    } else if ws.len() == 1 {
        regex_word(ws[0])
    } else {
        regex_word(ws[0]) + "|"@ + alternatives(ws.drop_first())
    }
}

/// The operator pattern reads, at the start of the text, one of the two-character operators
/// of the language before trying the one-character ones, so that each two-character
/// operator comes out as a single token.
pub proof fn law_operator_pattern()
    ensures
        spec_pattern(3) == "^(?:"@ + alternatives(two_char_operators()) + "|["@ + one_char_operators() + "])"@,
{
    reveal_strlit("--");
    reveal_strlit("->");
    reveal_strlit("&&");
    reveal_strlit("||");
    reveal_strlit("==");
    reveal_strlit("!=");
    reveal_strlit("<=");
    reveal_strlit(">=");
    reveal_strlit("+=");
    reveal_strlit("-=");
    reveal_strlit("/=");
    reveal_strlit("*=");
    reveal_strlit("++");
    reveal_strlit("|");
    reveal_strlit("^(?:");
    reveal_strlit("|[");
    reveal_strlit("])");
    reveal_strlit("-~!+*/<>=?:");
    reveal_strlit("^(?:--|->|&&|\\|\\||==|!=|<=|>=|\\+=|-=|/=|\\*=|\\+\\+|[-~!+*/<>=?:])");
    reveal_with_fuel(alternatives, 14);
    reveal_with_fuel(regex_word, 3);
    assert(spec_pattern(3) =~= "^(?:"@ + alternatives(two_char_operators()) + "|["@ + one_char_operators() + "])"@);
}

fn pattern(id: usize) -> (r: &'static str)
    requires
        id < 5,
    ensures
        r@ == spec_pattern(id as nat),
{
    if id == 0 {
        "^\\d+"
    } else if id == 1 {
        "^(?:i32|let|return|if|else|while|break|continue|for|do)"
    } else if id == 2 {
        "^[{}();,]"
    } else if id == 3 {
        "^(?:--|->|&&|\\|\\||==|!=|<=|>=|\\+=|-=|/=|\\*=|\\+\\+|[-~!+*/<>=?:])"
    } else {
        "^\\w+"
    }
}

/// ASCII whitespace as `u8::is_ascii_whitespace` defines it.
pub open spec fn is_ascii_ws(c: char) -> bool {
    c == ' ' || c == '\t' || c == '\n' || c == '\x0C' || c == '\r'
}

fn is_ws(c: char) -> (r: bool)
    ensures
        r == is_ascii_ws(c),
{
    c == ' ' || c == '\t' || c == '\n' || c == '\x0C' || c == '\r'
}

/// The first position at or after `i` that does not hold whitespace.
pub open spec fn skip_ws(s: Seq<char>, i: int) -> int
    decreases s.len() - i,
{
    if 0 <= i < s.len() && is_ascii_ws(s[i]) {
        skip_ws(s, i + 1)
    } else {
        i
    }
}

/// The end of `s[..j]` once trailing whitespace down to `lo` is removed.
pub open spec fn trim_end(s: Seq<char>, lo: int, j: int) -> int
    decreases j - lo,
{
    if lo < j && j <= s.len() && is_ascii_ws(s[j - 1]) {
        trim_end(s, lo, j - 1)
    } else {
        j
    }
}

/// `s` without leading and trailing ASCII whitespace (as `str::trim_ascii`).
pub open spec fn spec_trim(s: Seq<char>) -> Seq<char> {
    let lo = skip_ws(s, 0);
    s.subrange(lo, trim_end(s, lo, s.len() as int))
}

proof fn lemma_skip_ws(s: Seq<char>, i: int)
    requires
        0 <= i <= s.len(),
    ensures
        i <= skip_ws(s, i) <= s.len(),
    decreases s.len() - i,
{
    if i < s.len() && is_ascii_ws(s[i]) {
        lemma_skip_ws(s, i + 1);
    }
}

proof fn lemma_trim_end(s: Seq<char>, lo: int, j: int)
    requires
        0 <= lo <= j <= s.len(),
    ensures
        lo <= trim_end(s, lo, j) <= j,
    decreases j - lo,
{
    if lo < j && is_ascii_ws(s[j - 1]) {
        lemma_trim_end(s, lo, j - 1);
    }
}

/// `s` without leading and trailing ASCII whitespace.
fn trim_ascii(s: &str) -> (r: String)
    requires
        s.is_ascii(),
    ensures
        r@ == spec_trim(s@),
{
    let n = s.unicode_len();
    let mut lo: usize = 0;
    while lo < n && is_ws(s.get_char(lo))
        invariant
            n == s@.len(),
            lo <= n,
            skip_ws(s@, lo as int) == skip_ws(s@, 0),
        decreases n - lo,
    {
        lo = lo + 1;
    }
    let mut hi: usize = n;
    while hi > lo && is_ws(s.get_char(hi - 1))
        invariant
            n == s@.len(),
            lo <= hi <= n,
            lo == skip_ws(s@, 0),
            trim_end(s@, lo as int, hi as int) == trim_end(s@, lo as int, n as int),
        decreases hi,
    {
        hi = hi - 1;
    }
    String::from_str(s.substring_ascii(lo, hi))
}

/// What `next_token` reads at the start of `slice`: the first kind at or after `id` whose
/// pattern matches, with the token (its text the trimmed match) and the length of the match.
pub open spec fn spec_next_token(slice: Seq<char>, id: nat) -> Option<(SpecToken, nat)>
    decreases 5 - id,
{
    if id >= 5 {
        None
    } else {
        match spec_regex_find(spec_pattern(id), slice) {
            Some((start, end)) => Some(
                (spec_create(id, spec_trim(slice.subrange(start as int, end as int))), (end - start) as nat),
            ),
            None => spec_next_token(slice, id + 1),
        }
    }
}

/// The token of kind `id` that a match of its pattern from byte `start` to byte `end` of
/// `slice` gives: the matched text without surrounding whitespace, with the length of the
/// match.
pub fn token_at_match(slice: &str, id: usize, start: usize, end: usize) -> (r: (Token, usize))
    requires
        slice.is_ascii(),
        id < 5,
        start <= end <= slice@.len(),
    ensures
        r.0@ == spec_create(id as nat, spec_trim(slice@.subrange(start as int, end as int))),
        r.1 == end - start,
{
    let piece = slice.substring_ascii(start, end);
    let content = trim_ascii(piece);
    (Token::create(id, content), end - start)
}

/// Reads one token at the start of `slice`.
fn next_token(slice: &str) -> (r: Option<(Token, usize)>)
    requires
        slice.is_ascii(),
    ensures
        match r {
            Some((t, n)) => spec_next_token(slice@, 0) == Some((t@, n as nat)) && n <= slice@.len(),
            None => spec_next_token(slice@, 0) is None,
        },
{
    let mut i: usize = 0;
    while i < 5
        invariant
            i <= 5,
            slice.is_ascii(),
            spec_next_token(slice@, 0) == spec_next_token(slice@, i as nat),
        decreases 5 - i,
    {
        let found = regex_find(pattern(i), slice);
        if let Some((start, end)) = found {
            return Some(token_at_match(slice, i, start, end));
        }
        i = i + 1;
    }
    None
}

/// The tokens of `line` from position `index` on.
pub open spec fn spec_tokenize_line(line: Seq<char>, index: int) -> Result<Seq<SpecToken>, LexError>
    decreases line.len() - index,
{
    if index < 0 || index >= line.len() {
        Ok(Seq::empty())
    } else if is_ascii_ws(line[index]) {
        spec_tokenize_line(line, index + 1)
    } else {
        match spec_next_token(line.subrange(index, line.len() as int), 0) {
            None => Err(LexError::UnrecognizedToken),
            Some((t, n)) => if n == 0 {
                Err(LexError::EmptyMatch)
            } else if index + n >= line.len() {
                Ok(seq![t])
            } else {
                match spec_tokenize_line(line, index + n) {
                    Ok(rest) => Ok(seq![t] + rest),
                    Err(e) => Err(e),
                }
            },
        }
    }
}

pub open spec fn tokens_view(ts: Seq<Token>) -> Seq<SpecToken> {
    ts.map_values(|t: Token| t@)
}

/// Splits one ASCII line into tokens, skipping whitespace.
pub fn tokenize_line(line: &str) -> (r: Result<Vec<Token>, LexError>)
    requires
        line.is_ascii(),
    ensures
        match r {
            Ok(ts) => spec_tokenize_line(line@, 0) == Ok::<Seq<SpecToken>, LexError>(tokens_view(ts@)),
            Err(e) => spec_tokenize_line(line@, 0) == Err::<Seq<SpecToken>, LexError>(e),
        },
{
    let n = line.unicode_len();
    let mut tokens: Vec<Token> = Vec::new();
    let mut index: usize = 0;
    // spec_tokenize_line(line, 0) == prefix + spec_tokenize_line(line, index)
    while index < n
        invariant
            n == line@.len(),
            line.is_ascii(),
            index <= n,
            match spec_tokenize_line(line@, index as int) {
                Ok(rest) => spec_tokenize_line(line@, 0) == Ok::<Seq<SpecToken>, LexError>(tokens_view(tokens@) + rest),
                Err(e) => spec_tokenize_line(line@, 0) == Err::<Seq<SpecToken>, LexError>(e),
            },
        decreases n - index,
    {
        if is_ws(line.get_char(index)) {
            index = index + 1;
        } else {
            let slice = line.substring_ascii(index, n);
            match next_token(slice) {
                None => {
                    return Err(LexError::UnrecognizedToken);
                },
                Some((t, adv)) => {
                    if adv == 0 {
                        return Err(LexError::EmptyMatch);
                    }
                    let ghost old_tokens = tokens@;
                    tokens.push(t);
                    proof {
                        assert(tokens_view(tokens@) == tokens_view(old_tokens) + seq![t@]);
                        match spec_tokenize_line(line@, (index + adv) as int) {
                            Ok(rest) => {
                                assert(tokens_view(tokens@) + rest == tokens_view(old_tokens) + (seq![t@] + rest));
                            },
                            Err(e) => {},
                        }
                    }
                    index = index + adv;
                },
            }
        }
    }
    proof {
        assert(tokens_view(tokens@) + Seq::<SpecToken>::empty() == tokens_view(tokens@));
    }
    Ok(tokens)
}


/// The tokens of the source lines `lines`, each of them read with a line break at its end.
pub open spec fn spec_tokenize(lines: Seq<Seq<char>>) -> Result<Seq<SpecToken>, LexError>
    decreases lines.len(),
{
    if lines.len() == 0 {
        Ok(Seq::empty())
    } else {
        match spec_tokenize(lines.drop_last()) {
            Err(e) => Err(e),
            Ok(prefix) => if !vstd::utf8::is_ascii_chars(lines.last()) {
                Err(LexError::NonAscii)
            } else {
                match spec_tokenize_line(lines.last() + "\n"@, 0) {
                    Ok(ts) => Ok(prefix + ts),
                    Err(e) => Err(e),
                }
            },
        }
    }
}

pub open spec fn lines_view(lines: Seq<String>) -> Seq<Seq<char>> {
    lines.map_values(|l: String| l@)
}

/// Once some first lines fail to tokenize, the whole source fails with the same error.
proof fn lemma_tokenize_error_persists(lines: Seq<Seq<char>>, k: int)
    requires
        0 <= k <= lines.len(),
        spec_tokenize(lines.take(k)) is Err,
    ensures
        spec_tokenize(lines) == spec_tokenize(lines.take(k)),
    decreases lines.len() - k,
{
    if k < lines.len() {
        assert(lines.take(k + 1).drop_last() == lines.take(k));
        lemma_tokenize_error_persists(lines, k + 1);
    } else {
        assert(lines.take(k) == lines);
    }
}

/// Lines are tokenized one by one: the tokens of two runs of lines, one after the other, are
/// those of the first run followed by those of the second, and the first error of either is
/// the error of the whole.
pub proof fn law_tokenize_append(a: Seq<Seq<char>>, b: Seq<Seq<char>>)
    ensures
        match (spec_tokenize(a), spec_tokenize(b)) {
            (Err(e), _) => spec_tokenize(a + b) == Err::<Seq<SpecToken>, LexError>(e),
            (Ok(_), Err(e)) => spec_tokenize(a + b) == Err::<Seq<SpecToken>, LexError>(e),
            (Ok(ta), Ok(tb)) => spec_tokenize(a + b) == Ok::<Seq<SpecToken>, LexError>(ta + tb),
        },
    decreases b.len(),
{
    if b.len() == 0 {
        assert(a + b =~= a);
        if let Ok(ta) = spec_tokenize(a) {
            assert(ta + Seq::<SpecToken>::empty() =~= ta);
        }
    } else {
        let b1 = b.drop_last();
        law_tokenize_append(a, b1);
        assert((a + b).drop_last() =~= a + b1);
        assert((a + b).last() == b.last());
        if let (Ok(ta), Ok(tb1)) = (spec_tokenize(a), spec_tokenize(b1)) {
            if let Ok(tl) = spec_tokenize_line(b.last() + "\n"@, 0) {
                assert(ta + tb1 + tl =~= ta + (tb1 + tl));
            }
        }
    }
}

/// Splits source lines into tokens. Each line is taken as read from the source, and a line
/// break is added at its end before it is tokenized.
pub fn tokenize(lines: &Vec<String>) -> (r: Result<Vec<Token>, LexError>)
    ensures
        match r {
            Ok(ts) => spec_tokenize(lines_view(lines@)) == Ok::<Seq<SpecToken>, LexError>(tokens_view(ts@)),
            Err(e) => spec_tokenize(lines_view(lines@)) == Err::<Seq<SpecToken>, LexError>(e),
        },
{
    let mut tokens: Vec<Token> = Vec::new();
    let mut i: usize = 0;
    proof {
        assert(lines_view(lines@.take(0)) =~= Seq::<Seq<char>>::empty());
        assert(tokens_view(tokens@) =~= Seq::<SpecToken>::empty());
    }
    while i < lines.len()
        invariant
            i <= lines.len(),
            spec_tokenize(lines_view(lines@.take(i as int))) == Ok::<Seq<SpecToken>, LexError>(tokens_view(tokens@)),
        decreases lines.len() - i,
    {
        proof {
            assert(lines_view(lines@.take(i + 1)).drop_last() == lines_view(lines@.take(i as int)));
            assert(lines_view(lines@.take(i + 1)).last() == lines@[i as int]@);
        }
        let line = &lines[i];
        if !line.is_ascii() {
            proof {
                assert(lines_view(lines@.take(i + 1)) == lines_view(lines@).take(i + 1));
                lemma_tokenize_error_persists(lines_view(lines@), i + 1);
            }
            return Err(LexError::NonAscii);
        }
        let mut full = line.clone();
        full.append("\n");
        proof {
            reveal_strlit("\n");
            assert(vstd::utf8::is_ascii_chars(full@));
        }
        match tokenize_line(full.as_str()) {
            Err(e) => {
                proof {
                    assert(lines_view(lines@.take(i + 1)) == lines_view(lines@).take(i + 1));
                    lemma_tokenize_error_persists(lines_view(lines@), i + 1);
                }
                return Err(e);
            },
            Ok(line_tokens) => {
                let ghost before = tokens@;
                let mut line_tokens = line_tokens;
                let ghost lt = line_tokens@;
                // append the line's tokens in order
                tokens.append(&mut line_tokens);
                proof {
                    assert(tokens_view(tokens@) == tokens_view(before) + tokens_view(lt));
                }
            },
        }
        i = i + 1;
    }
    proof {
        assert(lines@.take(lines@.len() as int) == lines@);
    }
    Ok(tokens)
}

} // verus!
