//! Classifying trimmed lines into tokens, and tokenizing whole texts.
//!
//! Each non-empty trimmed line becomes exactly one token:
//!
//! - a line beginning with `// ` is a [`Token::Comment`];
//! - a line beginning with `[version ` is a [`Token::VersionSpecifier`]
//!   holding the parsed version from between that prefix and the line's last
//!   character; if the version text does not parse, the whole tokenization
//!   fails with a [`ParseTokenError`] naming the offending line (a malformed
//!   version specifier is the one fatal condition);
//! - any other line wrapped in exactly one pair of square brackets is a
//!   [`Token::NameSpace`] holding the text between the brackets; a line that
//!   starts with `[` but does not end with `]` falls through to the next rule
//!   (best-effort classification, never an error);
//! - any other line is a [`Token::Identifier`] holding the trimmed line.

use vstd::prelude::*;

use crate::lines::{
    kept_lines, kept_of, spec_trim, split_into_lines, split_lines, trim_of, lemma_kept_of_add,
    lemma_kept_lines_concat,
};
use crate::semver_support::{parse_version, semver_accepts, semver_version_of};

verus! {

/// One classified line of the input text.
#[derive(Debug)]
pub enum Token {
    /// A `[version <semver>]` line, holding the parsed version.
    VersionSpecifier(semver::Version),
    /// A `[<name>]` line, holding the text between the brackets.
    NameSpace(String),
    /// Any other non-empty line, held as trimmed.
    Identifier(String),
    /// A `// ` line.
    Comment,
}

/// The failure of a whole tokenization: a line declared a version that the
/// semantic-versioning grammar rejects. The offending trimmed line is kept.
#[derive(Debug)]
pub struct ParseTokenError {
    /// The trimmed line whose version text did not parse.
    pub line: String,
}

/// Whether a trimmed line is a comment: it begins with `// `.
pub open spec fn line_is_comment(l: Seq<char>) -> bool {
    l.len() >= 3 && l[0] == '/' && l[1] == '/' && l[2] == ' '
}

/// Whether a trimmed line declares a version: it begins with `[version `.
pub open spec fn line_is_version(l: Seq<char>) -> bool {
    l.len() >= 9 && l[0] == '[' && l[1] == 'v' && l[2] == 'e' && l[3] == 'r' && l[4] == 's'
        && l[5] == 'i' && l[6] == 'o' && l[7] == 'n' && l[8] == ' '
}

/// The version text of a version line: everything after the `[version `
/// prefix and before the line's last character.
pub open spec fn version_body(l: Seq<char>) -> Seq<char> {
    l.subrange(9, l.len() - 1)
}

/// Whether a trimmed line declares a namespace: it is wrapped in exactly one
/// pair of square brackets and is not a version line.
pub open spec fn line_is_namespace(l: Seq<char>) -> bool {
    l.len() >= 2 && l[0] == '[' && l[l.len() - 1] == ']' && !line_is_version(l)
}

/// The namespace text: everything strictly between the brackets.
pub open spec fn namespace_body(l: Seq<char>) -> Seq<char> {
    l.subrange(1, l.len() - 1)
}

/// Whether a trimmed line defeats tokenization: it declares a version whose
/// version text the grammar rejects, or is too short to hold one.
pub open spec fn line_fails(l: Seq<char>) -> bool {
    line_is_version(l) && (l.len() < 10 || !semver_accepts(version_body(l)))
}

/// Whether `t` is the token that the trimmed line `l` classifies to.
pub open spec fn token_for_line(l: Seq<char>, t: Token) -> bool {
    if line_is_comment(l) {
        t == Token::Comment
    } else if line_is_version(l) {
        &&& l.len() >= 10
        &&& semver_accepts(version_body(l))
        &&& t == Token::VersionSpecifier(semver_version_of(version_body(l)))
    } else if line_is_namespace(l) {
        t matches Token::NameSpace(s) && s@ == namespace_body(l)
    } else {
        t matches Token::Identifier(s) && s@ == l
    }
}

/// Whether `ts` is exactly the token sequence for the trimmed non-empty lines
/// `ls`: one token per line, in order, with no line failing.
pub open spec fn tokens_match(ls: Seq<Seq<char>>, ts: Seq<Token>) -> bool {
    &&& ts.len() == ls.len()
    &&& forall|i: int|
        0 <= i < ls.len() ==> #[trigger] token_for_line(ls[i], ts[i]) && !line_fails(ls[i])
}

/// The version text of a line that declares a version: the characters after
/// the nine-character `[version ` prefix, up to but not including the line's
/// last character (expected to be `]`, though not checked here).
pub fn remove_version_specifier_whitespace(value: &str) -> (r: &str)
    requires
        value@.len() >= 10,
    ensures
        r@ == version_body(value@),
{
    let n = value.unicode_len();
    value.substring_char(9, n - 1)
}

impl Token {
    /// Classifies one trimmed line. Fails exactly when the line declares a
    /// version that does not parse; every other line classifies.
    pub fn try_from(value: &str) -> (r: Result<Token, ParseTokenError>)
        ensures
            r matches Ok(t) ==> token_for_line(value@, t) && !line_fails(value@),
            r matches Err(e) ==> line_fails(value@) && e.line@ == value@,
    {
        let n = value.unicode_len();
        if n >= 3 && value.get_char(0) == '/' && value.get_char(1) == '/' && value.get_char(2)
            == ' ' {
            return Ok(Token::Comment);
        }
        if n >= 9 && value.get_char(0) == '[' && value.get_char(1) == 'v' && value.get_char(2)
            == 'e' && value.get_char(3) == 'r' && value.get_char(4) == 's' && value.get_char(5)
            == 'i' && value.get_char(6) == 'o' && value.get_char(7) == 'n' && value.get_char(8)
            == ' ' {
            if n < 10 {
                return Err(ParseTokenError { line: value.to_owned() });
            }
            let body = remove_version_specifier_whitespace(value);
            match parse_version(body) {
                Ok(version) => Ok(Token::VersionSpecifier(version)),
                Err(_) => Err(ParseTokenError { line: value.to_owned() }),
            }
        } else if n >= 1 && value.get_char(0) == '[' {
            if n >= 2 && value.get_char(n - 1) == ']' {
                let inner = value.substring_char(1, n - 1);
                Ok(Token::NameSpace(inner.to_owned()))
            } else {
                Ok(Token::Identifier(value.to_owned()))
            }
        } else {
            Ok(Token::Identifier(value.to_owned()))
        }
    }
}

proof fn lemma_kept_of_one(l: Seq<char>)
    ensures
        spec_trim(l).len() == 0 ==> kept_of(seq![l]) == Seq::<Seq<char>>::empty(),
        spec_trim(l).len() > 0 ==> kept_of(seq![l]) == seq![spec_trim(l)],
{
    let one = seq![l];
    assert(one[0] == l);
    assert(one.drop_first() =~= Seq::<Seq<char>>::empty());
    assert(kept_of(Seq::<Seq<char>>::empty()) == Seq::<Seq<char>>::empty());
    if spec_trim(l).len() > 0 {
        assert(seq![spec_trim(l)] + Seq::<Seq<char>>::empty() =~= seq![spec_trim(l)]);
    }
}

proof fn lemma_kept_of_take_one(ls: Seq<Seq<char>>, k: int)
    requires
        0 <= k < ls.len(),
    ensures
        kept_of(ls.take(k + 1)) == kept_of(ls.take(k)) + kept_of(seq![ls[k]]),
        kept_of(ls) == kept_of(ls.take(k)) + kept_of(seq![ls[k]]) + kept_of(
            ls.skip(k + 1),
        ),
{
    assert(ls.take(k + 1) =~= ls.take(k) + seq![ls[k]]);
    lemma_kept_of_add(ls.take(k), seq![ls[k]]);
    assert(ls =~= ls.take(k + 1) + ls.skip(k + 1));
    lemma_kept_of_add(ls.take(k + 1), ls.skip(k + 1));
}

/// Tokenizes a whole text: one token for each non-empty trimmed line, in the
/// order of the lines. Whitespace-only lines produce no token. Fails exactly
/// when some line declares a version that does not parse, and then names the
/// first such line.
pub fn tokenize(contents: &str) -> (r: Result<Vec<Token>, ParseTokenError>)
    ensures
        r matches Ok(ts) ==> tokens_match(kept_lines(contents@), ts@),
        r matches Err(e) ==> exists|i: int|
            0 <= i < kept_lines(contents@).len() && #[trigger] line_fails(kept_lines(contents@)[i])
                && (forall|j: int| 0 <= j < i ==> !line_fails(kept_lines(contents@)[j]))
                && e.line@ == kept_lines(contents@)[i],
{
    let lines = split_into_lines(contents);
    let ghost segs = lines@.map_values(|l: String| l@);
    let mut tokens: Vec<Token> = Vec::new();
    let mut k: usize = 0;
    proof {
        assert(segs.take(0) =~= Seq::<Seq<char>>::empty());
    }
    while k < lines.len()
        invariant
            segs == lines@.map_values(|l: String| l@),
            split_lines(contents@) == segs,
            k <= lines.len(),
            tokens_match(kept_of(segs.take(k as int)), tokens@),
        decreases lines.len() - k,
    {
        let ghost kept_done = kept_of(segs.take(k as int));
        proof {
            lemma_kept_of_take_one(segs, k as int);
            assert(segs[k as int] == lines@[k as int]@);
        }
        let trimmed = trim_of(lines[k].as_str());
        proof {
            lemma_kept_of_one(segs[k as int]);
        }
        if trimmed.unicode_len() > 0 {
            match Token::try_from(trimmed) {
                Ok(tok) => {
                    let ghost old_tokens = tokens@;
                    tokens.push(tok);
                    proof {
                        let kept_next = kept_of(segs.take(k as int + 1));
                        assert(kept_next =~= kept_done + seq![trimmed@]);
                        assert forall|i: int| 0 <= i < kept_next.len() implies #[trigger]
                            token_for_line(kept_next[i], tokens@[i]) && !line_fails(
                            kept_next[i],
                        ) by {
                            if i < kept_done.len() {
                                assert(token_for_line(kept_done[i], old_tokens[i]));
                                assert(kept_next[i] == kept_done[i]);
                                assert(tokens@[i] == old_tokens[i]);
                            } else {
                                assert(kept_next[i] == trimmed@);
                                assert(tokens@[i] == tok);
                            }
                        }
                    }
                },
                Err(e) => {
                    proof {
                        let kept = kept_lines(contents@);
                        let i = kept_done.len() as int;
                        assert(kept =~= kept_done + seq![trimmed@] + kept_of(
                            segs.skip(k as int + 1),
                        ));
                        assert(kept[i] == trimmed@);
                        assert forall|j: int| 0 <= j < i implies !line_fails(kept[j]) by {
                            assert(kept[j] == kept_done[j]);
                            assert(token_for_line(kept_done[j], tokens@[j]) && !line_fails(
                                kept_done[j],
                            ));
                        }
                        assert(0 <= i < kept.len() && line_fails(kept[i]) && (forall|j: int|
                            0 <= j < i ==> !line_fails(kept[j])) && e.line@ == kept[i]);
                    }
                    return Err(e);
                },
            }
        } else {
            proof {
                assert(kept_of(segs.take(k as int + 1)) =~= kept_done);
            }
        }
        k = k + 1;
    }
    proof {
        assert(segs.take(lines@.len() as int) =~= segs);
    }
    Ok(tokens)
}

proof fn lemma_tokens_match_at(ls: Seq<Seq<char>>, ts: Seq<Token>, i: int)
    requires
        tokens_match(ls, ts),
        0 <= i < ls.len(),
    ensures
        token_for_line(ls[i], ts[i]),
        !line_fails(ls[i]),
{
    assert(token_for_line(ls[i], ts[i]) && !line_fails(ls[i]));
}

/// Law: tokenizing two texts joined by a line break yields the token
/// sequences of the two texts, in sequence.
pub proof fn lemma_tokenize_concat(a: Seq<char>, b: Seq<char>, ta: Seq<Token>, tb: Seq<Token>)
    requires
        tokens_match(kept_lines(a), ta),
        tokens_match(kept_lines(b), tb),
    ensures
        tokens_match(kept_lines(a + seq!['\n'] + b), ta + tb),
{
    lemma_kept_lines_concat(a, b);
    let ka = kept_lines(a);
    let kb = kept_lines(b);
    let kc = kept_lines(a + seq!['\n'] + b);
    assert(kc == ka + kb);
    assert forall|i: int| 0 <= i < kc.len() implies #[trigger] token_for_line(kc[i], (ta + tb)[i])
        && !line_fails(kc[i]) by {
        if i < ka.len() {
            lemma_tokens_match_at(ka, ta, i);
            assert(kc[i] == ka[i] && (ta + tb)[i] == ta[i]);
        } else {
            let j = i - ka.len();
            lemma_tokens_match_at(kb, tb, j);
            assert(kc[i] == kb[j] && (ta + tb)[i] == tb[j]);
        }
    }
}

/// Law: when the first text already ends in a line break, plain concatenation
/// of two texts also tokenizes to the two token sequences in sequence.
pub proof fn lemma_tokenize_concat_flush(a: Seq<char>, b: Seq<char>, ta: Seq<Token>, tb: Seq<Token>)
    requires
        a.len() > 0,
        a.last() == '\n',
        tokens_match(kept_lines(a), ta),
        tokens_match(kept_lines(b), tb),
    ensures
        tokens_match(kept_lines(a + b), ta + tb),
{
    let head = a.drop_last();
    let empty = Seq::<char>::empty();
    assert(a =~= head + seq!['\n'] + empty);
    assert(a + b =~= head + seq!['\n'] + b);
    lemma_kept_lines_concat(head, empty);
    assert(split_lines(empty) == seq![empty]);
    lemma_kept_of_one(empty);
    assert(kept_lines(a) =~= kept_lines(head));
    lemma_tokenize_concat(head, b, ta, tb);
}

/// The text of a whole version-specifier line declaring the version string
/// `v`: the prefix, the version string, and the closing bracket.
pub open spec fn version_line(v: Seq<char>) -> Seq<char> {
    seq!['[', 'v', 'e', 'r', 's', 'i', 'o', 'n', ' '] + v + seq![']']
}

/// Law: a version line built from any version string that the grammar accepts
/// (and that holds no line break) tokenizes to exactly one token, the version
/// specifier denoting that string.
pub proof fn lemma_version_round_trip(v: Seq<char>, ts: Seq<Token>)
    requires
        semver_accepts(v),
        forall|i: int| 0 <= i < v.len() ==> v[i] != '\n',
        tokens_match(kept_lines(version_line(v)), ts),
    ensures
        ts =~= seq![Token::VersionSpecifier(semver_version_of(v))],
{
    let l = version_line(v);
    assert(l.len() == 10 + v.len());
    assert forall|i: int| 0 <= i < l.len() implies l[i] != '\n' by {
        if 9 <= i < l.len() - 1 {
            assert(l[i] == v[i - 9]);
        }
    }
    crate::lines::lemma_first_newline_is(l, l.len() as int);
    assert(split_lines(l) == seq![l]);
    assert(l[0] == '[' && l[l.len() - 1] == ']');
    assert(spec_trim(l) == l);
    lemma_kept_of_one(l);
    assert(kept_lines(l) == seq![l]);
    assert(line_is_version(l));
    assert(!line_is_comment(l));
    assert(version_body(l) =~= v);
    assert(token_for_line(l, ts[0]));
    assert(ts =~= seq![Token::VersionSpecifier(semver_version_of(v))]);
}

} // verus!
