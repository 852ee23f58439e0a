//! What configured exclusions stand for.

use vstd::prelude::*;

use vstd::utf8::encode_utf8;

use crate::clone::{exclusion, exclusion_paths};
use crate::construct::{configured_exclusions, exclude_args, excludes_protocol};
use crate::errors::ErrorView;
use crate::git::{answer_text, optional_protocol};
use crate::paths::{
    absolute_path, components, current_word, lemma_components_well_formed, lemma_rendered,
    parent_word, plain_word, rendered, root_word, tidy, well_formed, SLASH,
};
use crate::sequences::{joined, lemma_first_is, split};
use crate::session::{GitContext, Log, Output, Reply, RequestView, Step};

verus! {

/// Items with `x` behind each.
pub open spec fn each_ended<T>(items: Seq<Seq<T>>, x: T) -> Seq<T>
    decreases items.len(),
{
    if items.len() == 0 {
        Seq::empty()
    } else {
        items[0] + seq![x] + each_ended(items.drop_first(), x)
    }
}

/// Items that end with a separator are told apart by it.
pub proof fn lemma_split_ended<T>(items: Seq<Seq<T>>, x: T)
    requires
        forall|k: int| 0 <= k < items.len() ==> !(#[trigger] items[k]).contains(x),
    ensures
        split(each_ended(items, x), x) == items.push(Seq::empty()),
    decreases items.len(),
{
    let s = each_ended(items, x);
    if items.len() == 0 {
        lemma_first_is(s, x, 0);
        assert(split(s, x) =~= items.push(Seq::empty()));
    } else {
        let f = items[0];
        let more = items.drop_first();
        assert forall|j: int| 0 <= j < f.len() implies s[j] != x by {
            assert(s[j] == f[j]);
            assert(f.contains(f[j]));
        }
        lemma_first_is(s, x, f.len() as int);
        assert(s.take(f.len() as int) =~= f);
        assert(s.skip(f.len() as int + 1) =~= each_ended(more, x));
        assert forall|k: int| 0 <= k < more.len() implies !(#[trigger] more[k]).contains(x) by {
            assert(more[k] == items[k + 1]);
        }
        lemma_split_ended(more, x);
        assert(split(s, x) =~= items.push(Seq::empty()));
    }
}

proof fn lemma_all_kept<T>(items: Seq<T>, f: spec_fn(T) -> bool)
    requires
        forall|k: int| 0 <= k < items.len() ==> f(#[trigger] items[k]),
    ensures
        items.filter(f) == items,
    decreases items.len(),
{
    reveal(Seq::filter);
    if items.len() > 0 {
        let front = items.drop_last();
        assert forall|k: int| 0 <= k < front.len() implies f(#[trigger] front[k]) by {
            assert(front[k] == items[k]);
        }
        lemma_all_kept(front, f);
        assert(f(items[items.len() - 1]));
        assert(items =~= front.push(items.last()));
    } else {
        assert(items.filter(f) =~= items);
    }
}

/// The components that an exclusion names, without a `.` before them.
pub open spec fn named(value: Seq<char>) -> Seq<Seq<u8>> {
    let c = components(encode_utf8(value));
    if c.len() > 0 && c[0] == current_word() {
        c.drop_first()
    } else {
        c
    }
}

/// Whether an exclusion names something below the source.
pub open spec fn acceptable(value: Seq<char>) -> bool {
    &&& !absolute_path(encode_utf8(value))
    &&& !components(encode_utf8(value)).contains(parent_word())
    &&& named(value).len() > 0
}

/// An exclusion stands for the path with the components that it names, and only one that
/// names something below the source stands for any.
pub proof fn law_an_exclusion_stands_for_what_it_names(value: Seq<char>)
    ensures
        match exclusion(value) {
            Ok(path) => acceptable(value) && components(path) == named(value),
            Err(_) => !acceptable(value),
        },
{
    let p = encode_utf8(value);
    let c = components(p);
    let f = |w: Seq<u8>| w != current_word();
    let n = named(value);
    lemma_components_well_formed(p);
    assert forall|k: int| 0 <= k < n.len() implies f(#[trigger] n[k]) by {
        if c[0] == current_word() {
            assert(n[k] == c[k + 1]);
        } else if k > 0 {
            assert(n[k] == c[k]);
        }
    }
    lemma_all_kept(n, f);
    assert(c.filter(f) == n) by {
        if c.len() > 0 && c[0] == current_word() {
            lemma_filter_first(c, f);
        }
    }
    if !absolute_path(p) {
        assert forall|k: int| 0 <= k < n.len() implies plain_word(#[trigger] n[k]) && n[k]
            != current_word() by {
            assert(f(n[k]));
            if c[0] == current_word() {
                assert(n[k] == c[k + 1]);
            } else {
                assert(n[k] == c[k]);
            }
        }
        assert(well_formed(n));
        assert(root_word()[0] == SLASH);
        assert(root_word().contains(SLASH));
        if n.len() > 0 {
            assert(plain_word(n[0]));
        }
        assert(tidy(p) == rendered(n));
        lemma_rendered(n);
        if n.len() > 0 {
            assert(joined(n, SLASH).len() > 0) by {
                assert(plain_word(n[0]));
            }
        }
    }
}

proof fn lemma_filter_first(c: Seq<Seq<u8>>, f: spec_fn(Seq<u8>) -> bool)
    requires
        c.len() > 0,
        !f(c[0]),
    ensures
        c.filter(f) == c.drop_first().filter(f),
    decreases c.len(),
{
    reveal(Seq::filter);
    if c.len() > 1 {
        lemma_filter_first(c.drop_last(), f);
        assert(c.drop_last().drop_first() =~= c.drop_first().drop_last());
        assert(c.drop_first().last() == c.last());
    } else {
        assert(c.drop_last().filter(f) =~= Seq::<Seq<u8>>::empty());
        assert(c.drop_first().filter(f) =~= Seq::<Seq<u8>>::empty());
    }
}

/// Whether paths are those that values name, one for each, in their order.
pub open spec fn stand_for(paths: Seq<Seq<u8>>, values: Seq<Seq<char>>) -> bool {
    &&& paths.len() == values.len()
    &&& forall|i: int|
        0 <= i < values.len() ==> components(#[trigger] paths[i]) == named(values[i])
}

/// Exclusions stand for one path each, in their order, if every one of them names
/// something.
pub proof fn law_exclusions_stand_for_their_paths(values: Seq<Seq<char>>)
    ensures
        match exclusion_paths(values) {
            Ok(paths) => stand_for(paths, values) && forall|i: int|
                0 <= i < values.len() ==> acceptable(#[trigger] values[i]),
            Err(_) => exists|i: int| 0 <= i < values.len() && !acceptable(#[trigger] values[i]),
        },
    decreases values.len(),
{
    if values.len() > 0 {
        let front = values.drop_last();
        law_exclusions_stand_for_their_paths(front);
        law_an_exclusion_stands_for_what_it_names(values.last());
        match exclusion_paths(front) {
            Ok(paths) => {
                match exclusion(values.last()) {
                    Ok(path) => {
                        let all = paths.push(path);
                        assert forall|i: int| 0 <= i < values.len() implies components(
                            #[trigger] all[i],
                        ) == named(values[i]) by {
                            if i < front.len() {
                                assert(all[i] == paths[i]);
                                assert(front[i] == values[i]);
                            }
                        }
                        assert forall|i: int| 0 <= i < values.len() implies acceptable(
                            #[trigger] values[i],
                        ) by {
                            if i < front.len() {
                                assert(front[i] == values[i]);
                            }
                        }
                    },
                    Err(_) => {
                        assert(!acceptable(values[values.len() - 1]));
                    },
                }
            },
            Err(_) => {
                let i = choose|i: int| 0 <= i < front.len() && !acceptable(#[trigger] front[i]);
                assert(!acceptable(values[i]));
            },
        }
    }
}

/// Every value that Git lists for `gwt.exclude` counts, and so does every one that was
/// given: Git is asked for all of them, with a zero character behind each, and the
/// exclusions are the paths of the listed values and then those of the given ones, in
/// that order. Where one of them names nothing below the source, that is misuse.
pub proof fn law_every_configured_exclusion_counts(
    cwd: Seq<u8>,
    values: Seq<Seq<char>>,
    given: Seq<Seq<char>>,
    out: Output,
    rest: Log,
)
    requires
        out.success,
        out.code != Some(1i32),
        out.stdout@ == encode_utf8(each_ended(values, '\0')),
        forall|k: int|
            0 <= k < values.len() ==> (#[trigger] values[k]).len() > 0 && !values[k].contains('\0'),
    ensures
        excludes_protocol(Log::empty(), cwd, given) == Step::<Seq<Seq<u8>>>::Ask(
            RequestView::Git {
                context: GitContext::Source,
                cwd,
                args: seq!["config"@, "--null"@, "--get-all"@, "gwt.exclude"@],
            },
        ),
        match excludes_protocol(seq![Reply::Git(Ok(out))] + rest, cwd, given) {
            Step::Done(paths, left) => {
                &&& left == rest
                &&& stand_for(paths, values + given)
                &&& forall|i: int|
                    0 <= i < (values + given).len() ==> acceptable(#[trigger] (values + given)[i])
            },
            Step::Fail(error, left) => {
                &&& error.usage
                &&& exists|i: int|
                    0 <= i < (values + given).len() && !acceptable(#[trigger] (values + given)[i])
            },
            _ => false,
        },
{
    let log = seq![Reply::Git(Ok(out))] + rest;
    assert(log.drop_first() =~= rest);
    lemma_listed_values(values, out.stdout@);
    law_exclusions_stand_for_their_paths(values + given);
    let text = each_ended(values, '\0');
    assert(optional_protocol(log, cwd, exclude_args()) == Step::Done(Some(text), rest));
    assert(exclude_args() =~= seq!["config"@, "--null"@, "--get-all"@, "gwt.exclude"@]);
}

proof fn lemma_listed_values(values: Seq<Seq<char>>, stdout: Seq<u8>)
    requires
        stdout == encode_utf8(each_ended(values, '\0')),
        forall|k: int|
            0 <= k < values.len() ==> (#[trigger] values[k]).len() > 0 && !values[k].contains('\0'),
    ensures
        answer_text(stdout) == Ok::<Seq<char>, ErrorView>(each_ended(values, '\0')),
        configured_exclusions(Some(each_ended(values, '\0'))) == values,
{
    let text = each_ended(values, '\0');
    vstd::utf8::encode_utf8_decode_utf8(text);
    vstd::utf8::encode_utf8_valid_utf8(text);
    lemma_ended_last(values, '\0');
    reveal_strlit("\n");
    assert(!crate::text::ends(text, "\n"@)) by {
        if text.len() > 0 {
            assert(text.skip(text.len() - 1)[0] == '\0');
            assert("\n"@[0] == '\n');
        }
    }
    assert forall|k: int| 0 <= k < values.len() implies !(#[trigger] values[k]).contains('\0') by {}
    lemma_split_ended(values, '\0');
    let f = |s: Seq<char>| s.len() > 0;
    lemma_all_kept(values, f);
    assert(values.push(Seq::empty()).filter(f) == values) by {
        reveal(Seq::filter);
        assert(values.push(Seq::empty()).drop_last() =~= values);
    }
}

proof fn lemma_ended_last<T>(items: Seq<Seq<T>>, x: T)
    ensures
        each_ended(items, x).len() > 0 ==> each_ended(items, x).last() == x,
        items.len() > 0 ==> each_ended(items, x).len() > 0,
    decreases items.len(),
{
    if items.len() > 0 {
        lemma_ended_last(items.drop_first(), x);
    }
}

/// Where nothing is configured, the exclusions are those of the given options.
pub proof fn law_given_exclusions_count_alone(
    cwd: Seq<u8>,
    given: Seq<Seq<char>>,
    out: Output,
    rest: Log,
)
    requires
        out.code == Some(1i32),
    ensures
        match excludes_protocol(seq![Reply::Git(Ok(out))] + rest, cwd, given) {
            Step::Done(paths, left) => left == rest && stand_for(paths, given),
            Step::Fail(error, _) => error.usage && exists|i: int|
                0 <= i < given.len() && !acceptable(#[trigger] given[i]),
            _ => false,
        },
{
    let log = seq![Reply::Git(Ok(out))] + rest;
    assert(log.drop_first() =~= rest);
    assert(Seq::<Seq<char>>::empty() + given =~= given);
    law_exclusions_stand_for_their_paths(given);
}

} // verus!
