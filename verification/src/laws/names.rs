//! What the names of repositories, exclusions and answers keep to.

use vstd::prelude::*;

use vstd::utf8::encode_utf8;

use crate::clone::exclusion;
use crate::json::{escaped, escaped_text, hex_digit, quoted};
use crate::naming::{names_only, repository_of};
use crate::paths::{
    absolute_path, components, current_word, is_name, join_path, law_join_within,
    lemma_components_well_formed, lemma_rendered, parent_word, plain_word, rendered, root_word,
    well_formed, within, SLASH,
};
use crate::text::{drop_leading, drop_trailing, trimmed, white};

verus! {

/// What is kept of a sequence was in it.
proof fn lemma_kept(c: Seq<Seq<u8>>, f: spec_fn(Seq<u8>) -> bool, k: int)
    requires
        0 <= k < c.filter(f).len(),
    ensures
        f(c.filter(f)[k]),
        exists|j: int| 0 <= j < c.len() && #[trigger] c[j] == c.filter(f)[k],
    decreases c.len(),
{
    reveal(Seq::filter);
    if c.len() > 0 {
        let init = c.drop_last();
        if k < init.filter(f).len() {
            lemma_kept(init, f, k);
            let j = choose|j: int| 0 <= j < init.len() && #[trigger] init[j] == init.filter(f)[k];
            assert(c[j] == c.filter(f)[k]);
        } else {
            assert(c[c.len() - 1] == c.filter(f)[k]);
        }
    }
}

/// An exclusion stands for a path below the source: it is not empty, and all its
/// components are names.
pub proof fn law_exclusions_stay_below_the_source(value: Seq<char>)
    ensures
        exclusion(value) matches Ok(path) ==> path.len() > 0 && names_only(path) && !absolute_path(
            path,
        ),
{
    if let Ok(path) = exclusion(value) {
        let p = encode_utf8(value);
        let c = components(p);
        let f = |w: Seq<u8>| w != current_word();
        let d = c.filter(f);
        lemma_components_well_formed(p);
        assert forall|k: int| 0 <= k < d.len() implies plain_word(#[trigger] d[k]) && d[k]
            != current_word() && is_name(d[k]) by {
            lemma_kept(c, f, k);
            let j = choose|j: int| 0 <= j < c.len() && #[trigger] c[j] == d[k];
            assert(plain_word(c[j]));
            assert(d[k] != root_word()) by {
                assert(root_word()[0] == SLASH);
                assert(root_word().contains(SLASH));
            }
        }
        assert(well_formed(d));
        assert(path == rendered(d)) by {
            if d.len() > 0 {
                assert(plain_word(d[0]));
                assert(root_word()[0] == SLASH);
                assert(root_word().contains(SLASH));
            }
        }
        lemma_rendered(d);
        lemma_components_well_formed(path);
        assert(names_only(path));
    }
}

/// A repository goes below its host: a path of a URL never leads above or beside
/// it.
pub proof fn law_repository_lies_below_its_host(
    scheme: Seq<char>,
    host: Option<Seq<char>>,
    path: Seq<char>,
)
    ensures
        repository_of(scheme, host, path) matches Ok(repository) ==> {
            &&& host matches Some(host) && within(repository, encode_utf8(host))
            &&& exists|relative: Seq<u8>| #[trigger]
                names_only(relative) && relative.len() > 0 && repository == join_path(
                    encode_utf8(host->0),
                    relative,
                )
        },
{
    if let Ok(repository) = repository_of(scheme, host, path) {
        let decoded = crate::naming::percent_decoded(encode_utf8(path));
        let shortened = crate::text::cut_suffix(
            crate::text::no_outer_slash(vstd::utf8::decode_utf8(decoded)),
            ".git"@,
        );
        let relative = encode_utf8(shortened);
        assert(names_only(relative));
        lemma_components_well_formed(relative);
        assert(!absolute_path(relative)) by {
            if absolute_path(relative) {
                assert(is_name(components(relative)[0]));
            }
        }
        law_join_within(encode_utf8(host->0), relative);
        lemma_encoded_nonempty(shortened);
    }
}

proof fn lemma_encoded_nonempty(text: Seq<char>)
    requires
        text.len() > 0,
    ensures
        encode_utf8(text).len() > 0,
{
    vstd::utf8::encode_utf8_decode_utf8(text);
    if encode_utf8(text).len() == 0 {
        assert(vstd::utf8::decode_utf8(encode_utf8(text)).len() == 0);
    }
}

proof fn lemma_escaped_front(text: Seq<char>)
    requires
        text.len() > 0,
    ensures
        escaped_text(text) == escaped(text[0]) + escaped_text(text.drop_first()),
    decreases text.len(),
{
    if text.len() == 1 {
        assert(text.drop_last() =~= Seq::<char>::empty());
        assert(text.drop_first() =~= Seq::<char>::empty());
        assert(escaped_text(text) =~= escaped(text[0]) + escaped_text(text.drop_first()));
    } else {
        let init = text.drop_last();
        lemma_escaped_front(init);
        assert(init.drop_first() =~= text.drop_first().drop_last());
        assert(escaped_text(text) =~= escaped(text[0]) + escaped_text(text.drop_first()));
    }
}

/// What is written for one character is never the beginning of what is written for
/// another.
proof fn lemma_escapes_differ(a: char, b: char, x: Seq<char>, y: Seq<char>)
    requires
        escaped(a) + x == escaped(b) + y,
    ensures
        a == b,
        x == y,
{
    let s = escaped(a) + x;
    let t = escaped(b) + y;
    assert(s[0] == t[0]);
    assert(escaped(a)[0] == s[0] && escaped(b)[0] == t[0]);
    if escaped(a).len() == 1 || escaped(b).len() == 1 {
        assert(escaped(a).len() == escaped(b).len());
    } else {
        assert(s[1] == t[1]);
        assert(escaped(a)[1] == s[1] && escaped(b)[1] == t[1]);
        if escaped(a).len() == 6 {
            assert(escaped(b).len() == 6);
            assert(s[4] == t[4] && s[5] == t[5]);
            assert(escaped(a)[4] == s[4] && escaped(b)[4] == t[4]);
            assert(escaped(a)[5] == s[5] && escaped(b)[5] == t[5]);
        }
    }
    assert(a == b);
    assert(x =~= s.skip(escaped(a).len() as int));
    assert(y =~= t.skip(escaped(b).len() as int));
}

proof fn lemma_escaped_texts_differ(a: Seq<char>, b: Seq<char>)
    requires
        escaped_text(a) == escaped_text(b),
    ensures
        a == b,
    decreases a.len(),
{
    if a.len() == 0 {
        if b.len() > 0 {
            lemma_escaped_front(b);
            assert(escaped(b[0]).len() > 0);
        }
        assert(a =~= b);
    } else {
        lemma_escaped_front(a);
        assert(escaped(a[0]).len() > 0);
        if b.len() > 0 {
            lemma_escaped_front(b);
            lemma_escapes_differ(
                a[0],
                b[0],
                escaped_text(a.drop_first()),
                escaped_text(b.drop_first()),
            );
            lemma_escaped_texts_differ(a.drop_first(), b.drop_first());
            assert(a =~= seq![a[0]] + a.drop_first());
            assert(b =~= seq![b[0]] + b.drop_first());
        }
    }
}

/// A text can be told from its JSON string: two texts never have the same one,
/// whatever quotation marks, backslashes or control characters they hold.
pub proof fn law_quoted_texts_differ(a: Seq<char>, b: Seq<char>)
    requires
        quoted(a) == quoted(b),
    ensures
        a == b,
{
    let x = escaped_text(a);
    let y = escaped_text(b);
    assert(quoted(a).subrange(1, quoted(a).len() - 1) =~= x);
    assert(quoted(b).subrange(1, quoted(b).len() - 1) =~= y);
    lemma_escaped_texts_differ(a, b);
}

/// The value of a hexadecimal digit.
pub open spec fn hexadecimal(c: char) -> int {
    if '0' <= c <= '9' {
        c as int - 48
    } else {
        c as int - 87
    }
}

/// What the characters between the quotation marks of a JSON string stand for.
pub open spec fn meant(text: Seq<char>) -> Seq<char>
    decreases text.len(),
{
    if text.len() == 0 {
        Seq::empty()
    } else if text[0] != '\\' {
        seq![text[0]] + meant(text.skip(1))
    } else if text.len() >= 6 && text[1] == 'u' {
        seq![
            (4096 * hexadecimal(text[2]) + 256 * hexadecimal(text[3]) + 16 * hexadecimal(text[4])
                + hexadecimal(text[5])) as char,
        ] + meant(text.skip(6))
    } else if text.len() >= 2 {
        seq![
            if text[1] == 'n' {
                '\n'
            } else if text[1] == 't' {
                '\t'
            } else if text[1] == 'r' {
                '\r'
            } else if text[1] == 'b' {
                '\u{8}'
            } else if text[1] == 'f' {
                '\u{c}'
            } else {
                text[1]
            },
        ] + meant(text.skip(2))
    } else {
        Seq::empty()
    }
}

proof fn lemma_meant(c: char, rest: Seq<char>)
    ensures
        meant(escaped(c) + rest) == seq![c] + meant(rest),
{
    let all = escaped(c) + rest;
    assert(all.skip(escaped(c).len() as int) =~= rest);
    if escaped(c).len() == 6 {
        let n = c as int;
        assert(all[2] == '0' && all[3] == '0');
        assert(all[4] == hex_digit(n / 16) && all[5] == hex_digit(n % 16));
        assert(hexadecimal(hex_digit(n / 16)) == n / 16);
        assert(hexadecimal(hex_digit(n % 16)) == n % 16);
        assert(16 * (n / 16) + n % 16 == n);
        assert(all[0] == '\\' && all[1] == 'u');
    } else if escaped(c).len() == 2 {
        assert(all[0] == '\\');
        assert(all[1] == escaped(c)[1]);
    } else {
        assert(all[0] == c);
    }
}

/// A JSON string stands for the text that it was made of: quotation marks, backslashes and
/// control characters are written so that they can be read.
pub proof fn law_quoted_texts_are_read_as_written(text: Seq<char>)
    ensures
        quoted(text)[0] == '"',
        quoted(text).last() == '"',
        meant(quoted(text).subrange(1, quoted(text).len() - 1)) == text,
    decreases text.len(),
{
    assert(quoted(text).subrange(1, quoted(text).len() - 1) =~= escaped_text(text));
    lemma_all_meant(text);
}

proof fn lemma_all_meant(text: Seq<char>)
    ensures
        meant(escaped_text(text)) == text,
    decreases text.len(),
{
    if text.len() > 0 {
        lemma_escaped_front(text);
        lemma_all_meant(text.drop_first());
        lemma_meant(text[0], escaped_text(text.drop_first()));
        assert(seq![text[0]] + text.drop_first() =~= text);
    } else {
        assert(meant(escaped_text(text)) =~= text);
    }
}

/// Whether all characters of a text are white space.
pub open spec fn all_white(text: Seq<char>) -> bool {
    forall|i: int| 0 <= i < text.len() ==> white(#[trigger] text[i])
}

proof fn lemma_dropped(text: Seq<char>) -> (n: int)
    ensures
        0 <= n <= text.len(),
        drop_leading(text, |c: char| white(c)) == text.skip(n),
        all_white(text.take(n)),
        n < text.len() ==> !white(text[n]),
    decreases text.len(),
{
    let f = |c: char| white(c);
    if text.len() > 0 && white(text[0]) {
        let m = lemma_dropped(text.drop_first());
        assert(text.drop_first().skip(m) =~= text.skip(m + 1));
        assert forall|i: int| 0 <= i < m + 1 implies white(#[trigger] text.take(m + 1)[i]) by {
            if i > 0 {
                assert(text.drop_first().take(m)[i - 1] == text[i]);
            }
        }
        m + 1
    } else {
        assert(text.skip(0) =~= text);
        0
    }
}

proof fn lemma_cut(text: Seq<char>) -> (n: int)
    ensures
        0 <= n <= text.len(),
        drop_trailing(text, |c: char| white(c)) == text.take(n),
        all_white(text.skip(n)),
        n > 0 ==> !white(text[n - 1]),
    decreases text.len(),
{
    if text.len() > 0 && white(text.last()) {
        let m = lemma_cut(text.drop_last());
        assert(text.drop_last().take(m) =~= text.take(m));
        assert forall|i: int| 0 <= i < text.len() - m implies white(#[trigger] text.skip(m)[i]) by {
            if i < text.len() - m - 1 {
                assert(text.drop_last().skip(m)[i] == text[m + i]);
            }
        }
        m
    } else {
        assert(text.take(text.len() as int) =~= text);
        text.len() as int
    }
}

/// A text without the white space around it: nothing but white space was taken away, and
/// none is left at its ends.
pub proof fn law_white_space_is_trimmed(text: Seq<char>)
    ensures
        exists|before: Seq<char>, behind: Seq<char>|
            #![trigger all_white(before), all_white(behind)]
            text == before + trimmed(text) + behind && all_white(before) && all_white(behind),
        trimmed(text).len() > 0 ==> !white(trimmed(text)[0]) && !white(trimmed(text).last()),
{
    let n = lemma_dropped(text);
    let rest = text.skip(n);
    let m = lemma_cut(rest);
    assert(trimmed(text) == rest.take(m));
    assert(text =~= text.take(n) + rest.take(m) + rest.skip(m));
    assert(all_white(text.take(n)) && all_white(rest.skip(m)));
}

/// What names an entry of a directory: neither the root, nor `.`, nor `..`. A path is
/// absolute where it begins with a slash.
pub proof fn law_what_is_a_name(word: Seq<u8>)
    ensures
        is_name(word) <==> word != seq![47u8] && word != seq![46u8] && word != seq![46u8, 46u8],
        absolute_path(word) <==> word.len() > 0 && word[0] == 47u8,
        names_only(word) <==> !components(word).contains(seq![47u8]) && !components(word).contains(
            seq![46u8],
        ) && !components(word).contains(seq![46u8, 46u8]),
{
    assert(root_word() =~= seq![47u8]);
    assert(current_word() =~= seq![46u8]);
    assert(parent_word() =~= seq![46u8, 46u8]);
    let c = components(word);
    if names_only(word) {
        assert forall|w: Seq<u8>| #[trigger] c.contains(w) implies is_name(w) by {
            let k = choose|k: int| 0 <= k < c.len() && c[k] == w;
            assert(is_name(c[k]));
        }
    }
    if !c.contains(seq![47u8]) && !c.contains(seq![46u8]) && !c.contains(seq![46u8, 46u8]) {
        assert forall|k: int| 0 <= k < c.len() implies is_name(#[trigger] c[k]) by {
            assert(c.contains(c[k]));
        }
    }
}

/// Of the characters of ASCII, white space are the blank and those from the tabulator to the
/// carriage return.
pub proof fn law_what_is_white_in_ascii(c: char)
    requires
        (c as int) < 128,
    ensures
        white(c) <==> c == ' ' || '\t' <= c <= '\r',
{
}

} // verus!
