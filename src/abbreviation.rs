//! The abbreviation of a course name: the initials of its words, stop words left out.
use vstd::prelude::*;
use vstd::string::*;
use crate::time::push_char;

verus! {

/// Whether `c` has the Unicode property `White_Space`.
pub uninterp spec fn white_space(c: char) -> bool;

/// The lowercase form of `s`, by Unicode's rules.
pub uninterp spec fn lower_of(s: Seq<char>) -> Seq<char>;

/// Relies on `char::is_whitespace`: true of the characters with the property `White_Space`.
#[verifier::external_body]
fn is_whitespace(c: char) -> (r: bool)
    ensures
        r == white_space(c),
{
    c.is_whitespace()
}

/// Relies on `str::to_lowercase`: the lowercase form, which depends on the characters alone.
#[verifier::external_body]
fn to_lowercase(s: &str) -> (r: String)
    ensures
        r@ == lower_of(s@),
{
    s.to_lowercase()
}

/// `c` in upper case when it is an ASCII letter, `c` itself otherwise.
pub open spec fn ascii_upper(c: char) -> char {
    if 'a' <= c && c <= 'z' {
        ((c as u32) - 32) as char
    } else {
        c
    }
}

/// Relies on `char::to_ascii_uppercase`: `a` to `z` become `A` to `Z`, all else is kept.
#[verifier::external_body]
fn to_ascii_uppercase(c: char) -> (r: char)
    ensures
        r == ascii_upper(c),
{
    c.to_ascii_uppercase()
}

/// The words of `s`: its longest runs of characters that are not white space, in order.
pub open spec fn words(s: Seq<char>) -> Seq<Seq<char>>
    decreases s.len(),
{
    if s.len() == 0 {
        seq![]
    } else {
        let w = words(s.drop_last());
        let c = s.last();
        if white_space(c) {
            w
        } else if s.len() >= 2 && !white_space(s[s.len() - 2]) {
            w.drop_last().push(w.last().push(c))
        } else {
            w.push(seq![c])
        }
    }
}

/// The short words that an abbreviation leaves out: de, em, da, do, das, dos.
pub open spec fn is_stop_word(w: Seq<char>) -> bool {
    ||| w == seq!['d', 'e']
    ||| w == seq!['e', 'm']
    ||| w == seq!['d', 'a']
    ||| w == seq!['d', 'o']
    ||| w == seq!['d', 'a', 's']
    ||| w == seq!['d', 'o', 's']
}

/// The first letter, in upper case, of each of `ws` whose lowercase form is no stop word.
pub open spec fn initials(ws: Seq<Seq<char>>) -> Seq<char>
    decreases ws.len(),
{
    if ws.len() == 0 {
        seq![]
    } else {
        let rest = initials(ws.drop_last());
        let w = ws.last();
        if is_stop_word(lower_of(w)) || w.len() == 0 {
            rest
        } else {
            rest.push(ascii_upper(w[0]))
        }
    }
}

/// The abbreviation of a course name.
pub open spec fn abbreviation(nome: Seq<char>) -> Seq<char> {
    initials(words(nome))
}

/// Whether `w` is one of the stop words.
fn is_excluded(w: &str) -> (r: bool)
    ensures
        r == is_stop_word(w@),
{
    let n = w.unicode_len();
    if n == 2 {
        let a = w.get_char(0);
        let b = w.get_char(1);
        let r = (a == 'd' && (b == 'e' || b == 'a' || b == 'o')) || (a == 'e' && b == 'm');
        proof {
            assert(w@ =~= seq![a, b]);
        }
        r
    } else if n == 3 {
        let a = w.get_char(0);
        let b = w.get_char(1);
        let c = w.get_char(2);
        let r = a == 'd' && (b == 'a' || b == 'o') && c == 's';
        proof {
            assert(w@ =~= seq![a, b, c]);
        }
        r
    } else {
        false
    }
}

/// Adds to `abreviacao` the initial of the word `word`, unless it is a stop word.
fn add_initial(abreviacao: &mut String, word: &str)
    requires
        word@.len() > 0,
    ensures
        final(abreviacao)@ == (if is_stop_word(lower_of(word@)) {
            old(abreviacao)@
        } else {
            old(abreviacao)@.push(ascii_upper(word@[0]))
        }),
{
    let lower = to_lowercase(word);
    if !is_excluded(lower.as_str()) {
        push_char(abreviacao, to_ascii_uppercase(word.get_char(0)));
    }
}

/// The abbreviation of a course name: the first letter, in upper case, of each word but
/// the stop words de, em, da, do, das and dos (in any case).
pub fn generate_abreviacao(nome: &str) -> (r: String)
    ensures
        r@ == abbreviation(nome@),
{
    let n = nome.unicode_len();
    let mut abreviacao = String::new();
    let ghost done: Seq<Seq<char>> = seq![];
    let mut in_word = false;
    let mut start: usize = 0;
    let mut i: usize = 0;
    while i < n
        invariant
            n == nome@.len(),
            i <= n,
            abreviacao@ == initials(done),
            in_word ==> start < i && !white_space(nome@[i - 1]) && words(nome@.subrange(0, i as int))
                == done.push(nome@.subrange(start as int, i as int)),
            !in_word ==> (i == 0 || white_space(nome@[i - 1])) && words(nome@.subrange(0, i as int))
                == done,
        decreases n - i,
    {
        let c = nome.get_char(i);
        let ghost prefix = nome@.subrange(0, i + 1);
        proof {
            assert(prefix.drop_last() =~= nome@.subrange(0, i as int));
            assert(prefix.last() == c);
        }
        if is_whitespace(c) {
            if in_word {
                let word = nome.substring_char(start, i);
                add_initial(&mut abreviacao, word);
                proof {
                    let old_done = done;
                    done = done.push(word@);
                    assert(done.drop_last() =~= old_done);
                }
                in_word = false;
            }
        } else {
            if in_word {
                proof {
                    assert(nome@.subrange(start as int, i + 1) =~= nome@.subrange(
                        start as int,
                        i as int,
                    ).push(c));
                    assert(done.push(nome@.subrange(start as int, i as int)).drop_last() =~= done);
                    assert(done.push(nome@.subrange(start as int, i + 1)) =~= done.push(
                        nome@.subrange(start as int, i as int),
                    ).drop_last().push(nome@.subrange(start as int, i as int).push(c)));
                }
            } else {
                start = i;
                in_word = true;
                proof {
                    assert(nome@.subrange(start as int, i + 1) =~= seq![c]);
                }
            }
        }
        i = i + 1;
    }
    if in_word {
        let word = nome.substring_char(start, n);
        add_initial(&mut abreviacao, word);
        proof {
            let old_done = done;
            done = done.push(word@);
            assert(done.drop_last() =~= old_done);
        }
    }
    proof {
        assert(nome@.subrange(0, n as int) =~= nome@);
    }
    abreviacao
}

} // verus!
