//! What one pass of replacement can do to a text, and what it cannot: what
//! is found after the pass was there before it, unless the pass put it there
//! itself.

use crate::rewrite::{aliased_through, destination, matcher, patterns, rewritten};
use crate::shape::{
    alias_is_tame, aliased_name, begins_with, has_no_quote, is_keyword_blank_quote, is_quote,
    lemma_aliased_name_has_no_quote, lemma_aliased_strangers, lemma_name_is_no_aliased_name,
    lemma_pattern_ends_no_other, lemma_patterns_shape, name_is_plain, name_is_tame,
    one_begins_the_other,
};
use crate::text::{
    lemma_occurrence_chars, lemma_occurs_behind_front, lemma_occurs_behind_head,
    lemma_occurs_within_back, occurs, occurs_at, replaced,
};
use vstd::prelude::*;

verus! {

/// What is sought in a text: the pattern at `inner`, directly followed by
/// `body`.
pub open spec fn sought(inner: int, body: Seq<char>) -> Seq<char> {
    patterns()[inner] + body
}

/// `needle` occurs twice in `text`, the second time beginning inside the
/// first.
pub open spec fn overlaps_itself(text: Seq<char>, needle: Seq<char>) -> bool {
    exists|a: int, b: int|
        a < b < a + needle.len() && #[trigger] occurs_at(text, needle, a) && #[trigger] occurs_at(
            text,
            needle,
            b,
        )
}

/// No part of `needle` can stem from a pass for the pattern at `outer` and
/// `name`: wherever that pattern stands in `needle` with something behind
/// it, what is behind it neither begins the aliased name nor begins with
/// it.
pub open spec fn resists(needle: Seq<char>, outer: int, alias: Seq<char>, name: Seq<char>) -> bool {
    forall|c: int|
        0 <= c && c + patterns()[outer].len() < needle.len() && #[trigger] needle.subrange(
            c,
            c + patterns()[outer].len(),
        ) == patterns()[outer] ==> !one_begins_the_other(
            needle.subrange(c + patterns()[outer].len(), needle.len() as int),
            aliased_name(alias, name),
        )
}

/// How a needle ends survives a pass backwards: where the text after the
/// pass begins with the needle behind its first `cut` characters, so did
/// the text before the pass.
pub proof fn lemma_pass_keeps_head(
    text: Seq<char>,
    alias: Seq<char>,
    outer: int,
    name: Seq<char>,
    needle: Seq<char>,
    cut: int,
)
    requires
        0 <= outer < 4,
        resists(needle, outer, alias, name),
        0 <= cut <= needle.len(),
        begins_with(
            replaced(
                text,
                matcher(patterns()[outer], name),
                destination(patterns()[outer], alias, name),
            ),
            needle.subrange(cut, needle.len() as int),
        ),
    ensures
        begins_with(text, needle.subrange(cut, needle.len() as int)),
    decreases text.len(),
{
    let p = patterns()[outer];
    let u = matcher(p, name);
    let v = destination(p, alias, name);
    let y = needle.subrange(cut, needle.len() as int);
    let z = replaced(text, u, v);
    lemma_patterns_shape();
    assert forall|r: int| 0 <= r < y.len() implies z[r] == y[r] by {
        assert(z.subrange(0, y.len() as int)[r] == z[r]);
    }
    if y.len() == 0 {
        assert(text.subrange(0, 0) =~= y);
    } else if text.len() == 0 {
    } else if occurs_at(text, u, 0) {
        let rest = replaced(text.subrange(u.len() as int, text.len() as int), u, v);
        let full = aliased_name(alias, name);
        assert(z == v + rest);
        assert(v =~= p + full);
        lemma_occurrence_chars(text, u, 0);
        if y.len() <= p.len() {
            assert(text.subrange(0, y.len() as int) =~= y) by {
                assert forall|r: int| 0 <= r < y.len() implies text[r] == y[r] by {
                    assert(text[0 + r] == u[r] && u[r] == p[r]);
                    assert(z[r] == v[r] && v[r] == p[r]);
                }
            }
        } else {
            let behind = needle.subrange(cut + p.len(), needle.len() as int);
            assert(needle.subrange(cut, cut + p.len()) =~= p) by {
                assert forall|r: int| 0 <= r < p.len() implies needle[cut + r] == p[r] by {
                    assert(y[r] == needle[cut + r]);
                    assert(z[r] == v[r] && v[r] == p[r]);
                }
            }
            assert forall|r: int| 0 <= r < behind.len() && r < full.len() implies behind[r]
                == full[r] by {
                assert(behind[r] == y[p.len() + r]);
                assert(z[p.len() + r] == v[p.len() + r] && v[p.len() + r] == full[r]);
            }
            if behind.len() <= full.len() {
                assert(full.subrange(0, behind.len() as int) =~= behind);
            } else {
                assert(behind.subrange(0, full.len() as int) =~= full);
            }
            assert(false);
        }
    } else {
        let tail = text.subrange(1, text.len() as int);
        let zt = replaced(tail, u, v);
        assert(z == seq![text[0]] + zt);
        let y1 = needle.subrange(cut + 1, needle.len() as int);
        assert(y1 =~= y.subrange(1, y.len() as int));
        assert(zt.subrange(0, y1.len() as int) =~= z.subrange(0, y.len() as int).subrange(
            1,
            y.len() as int,
        ));
        lemma_pass_keeps_head(tail, alias, outer, name, needle, cut + 1);
        assert(text.subrange(0, y.len() as int) =~= y) by {
            assert(z[0] == y[0]);
            assert forall|r: int| 1 <= r < y.len() implies text[r] == y[r] by {
                assert(tail.subrange(0, y1.len() as int)[r - 1] == tail[r - 1]);
                assert(y1[r - 1] == y[r]);
            }
        }
    }
}

/// An overlap in the back part of a text is an overlap in the whole text.
pub proof fn lemma_overlap_behind_front(front: Seq<char>, back: Seq<char>, needle: Seq<char>)
    requires
        overlaps_itself(back, needle),
    ensures
        overlaps_itself(front + back, needle),
{
    let (a, b) = choose|a: int, b: int|
        a < b < a + needle.len() && #[trigger] occurs_at(back, needle, a) && #[trigger] occurs_at(
            back,
            needle,
            b,
        );
    lemma_occurs_behind_front(front, back, needle, a);
    lemma_occurs_behind_front(front, back, needle, b);
}

/// A needle that begins inside what a pass put in: the needle was in the
/// text before the pass, astride the end of the replaced match.
proof fn lemma_needle_inside_replacement(
    text: Seq<char>,
    alias: Seq<char>,
    outer: int,
    name: Seq<char>,
    inner: int,
    body: Seq<char>,
    at: int,
)
    requires
        0 <= outer < 4,
        0 <= inner < 4,
        alias_is_tame(alias),
        name.len() > 0,
        has_no_quote(name),
        resists(sought(inner, body), outer, alias, name),
        occurs_at(text, matcher(patterns()[outer], name), 0),
        0 <= at < destination(patterns()[outer], alias, name).len(),
        occurs_at(
            destination(patterns()[outer], alias, name) + replaced(
                text.subrange(matcher(patterns()[outer], name).len() as int, text.len() as int),
                matcher(patterns()[outer], name),
                destination(patterns()[outer], alias, name),
            ),
            sought(inner, body),
            at,
        ),
    ensures
        occurs(text, sought(inner, body)),
        sought(inner, body) == matcher(patterns()[outer], name) ==> overlaps_itself(
            text,
            sought(inner, body),
        ),
{
    let p = patterns()[outer];
    let q = patterns()[inner];
    let u = matcher(p, name);
    let v = destination(p, alias, name);
    let x = sought(inner, body);
    let back = text.subrange(u.len() as int, text.len() as int);
    let rest = replaced(back, u, v);
    let z = v + rest;
    let full = aliased_name(alias, name);
    let wp = p.len() - 2;
    let wq = q.len() - 2;
    let quote = at + wq + 1;
    lemma_patterns_shape();
    assert(is_keyword_blank_quote(p) && is_keyword_blank_quote(q));
    lemma_occurrence_chars(z, x, at);
    lemma_occurrence_chars(text, u, 0);
    assert(v =~= p + full);
    assert(z[quote] == x[wq + 1] && x[wq + 1] == q[wq + 1]);
    if quote < v.len() {
        assert(quote == wp + 1) by {
            lemma_aliased_name_has_no_quote(alias, name);
            assert(z[quote] == v[quote]);
            if quote < p.len() {
                assert(v[quote] == p[quote]);
            } else {
                assert(v[quote] == full[quote - p.len()]);
            }
        }
        assert(at == 0 && outer == inner) by {
            assert forall|r: int| 0 <= r < q.len() implies p[at + r] == q[r] by {
                assert(z[at + r] == x[r] && x[r] == q[r]);
                assert(z[at + r] == v[at + r] && v[at + r] == p[at + r]);
            }
            lemma_pattern_ends_no_other(outer, inner, at);
        }
        if body.len() == 0 {
            assert(x =~= p);
            assert(text.subrange(0, p.len() as int) =~= p) by {
                assert forall|r: int| 0 <= r < p.len() implies text[r] == p[r] by {
                    assert(text[0 + r] == u[r] && u[r] == p[r]);
                }
            }
            assert(occurs_at(text, x, 0));
        } else {
            let behind = x.subrange(p.len() as int, x.len() as int);
            let c: int = 0;
            assert(x.subrange(c, c + p.len()) =~= p);
            assert(one_begins_the_other(behind, full)) by {
                assert forall|r: int| 0 <= r < behind.len() && r < full.len() implies behind[r]
                    == full[r] by {
                    assert(behind[r] == x[p.len() + r]);
                    assert(z[at + (p.len() + r)] == x[p.len() + r]);
                    assert(z[p.len() + r] == v[p.len() + r] && v[p.len() + r] == full[r]);
                }
                if behind.len() <= full.len() {
                    assert(full.subrange(0, behind.len() as int) =~= behind);
                } else {
                    assert(behind.subrange(0, full.len() as int) =~= full);
                }
            }
            assert(false);
        }
    } else {
        let j = v.len() - at;
        assert forall|r: int| 0 <= r < j implies v[at + r] == q[r] by {
            assert(z[at + r] == x[r] && x[r] == q[r]);
            assert(z[at + r] == v[at + r]);
        }
        assert(j <= name.len()) by {
            if j > name.len() {
                let r0 = j - name.len() - 1;
                assert(v[at + r0] == q[r0]);
                assert(v[at + r0] == '/');
            }
        }
        let x1 = x.subrange(j, x.len() as int);
        assert(begins_with(rest, x1)) by {
            assert forall|r: int| 0 <= r < x1.len() implies rest[r] == x1[r] by {
                assert(z[at + (j + r)] == x[j + r]);
            }
            assert(rest.subrange(0, x1.len() as int) =~= x1);
        }
        lemma_pass_keeps_head(back, alias, outer, name, x, j);
        let place = u.len() - j;
        assert(occurs_at(text, x, place)) by {
            assert forall|r: int| 0 <= r < x.len() implies text[place + r] == x[r] by {
                if r < j {
                    assert(text[0 + (place + r)] == u[place + r]);
                    assert(u[place + r] == name[name.len() - j + r]);
                    assert(v[at + r] == name[name.len() - j + r]);
                    assert(x[r] == q[r]);
                } else {
                    assert(back.subrange(0, x1.len() as int)[r - j] == back[r - j]);
                    assert(x1[r - j] == x[r]);
                }
            }
            assert(text.subrange(place, place + x.len()) =~= x);
        }
        if x == u {
            assert(0 < place < 0 + x.len());
            assert(occurs_at(text, x, 0));
        }
    }
}

/// A needle with which the text after a pass begins, where the text before
/// the pass did not begin with the matcher: the text before the pass began
/// with the needle too.
proof fn lemma_needle_at_unmatched_head(
    text: Seq<char>,
    alias: Seq<char>,
    outer: int,
    name: Seq<char>,
    needle: Seq<char>,
)
    requires
        0 <= outer < 4,
        text.len() > 0,
        needle.len() > 0,
        resists(needle, outer, alias, name),
        occurs_at(
            seq![text[0]] + replaced(
                text.subrange(1, text.len() as int),
                matcher(patterns()[outer], name),
                destination(patterns()[outer], alias, name),
            ),
            needle,
            0,
        ),
    ensures
        occurs_at(text, needle, 0),
{
    let u = matcher(patterns()[outer], name);
    let v = destination(patterns()[outer], alias, name);
    let tail = text.subrange(1, text.len() as int);
    let zt = replaced(tail, u, v);
    let z = seq![text[0]] + zt;
    let x1 = needle.subrange(1, needle.len() as int);
    lemma_occurrence_chars(z, needle, 0);
    assert(begins_with(zt, x1)) by {
        assert forall|r: int| 0 <= r < x1.len() implies zt[r] == x1[r] by {
            assert(z[0 + (r + 1)] == needle[r + 1]);
        }
        assert(zt.subrange(0, x1.len() as int) =~= x1);
    }
    lemma_pass_keeps_head(tail, alias, outer, name, needle, 1);
    assert(text.subrange(0, needle.len() as int) =~= needle) by {
        assert(z[0] == needle[0]);
        assert forall|r: int| 1 <= r < needle.len() implies text[r] == needle[r] by {
            assert(tail.subrange(0, x1.len() as int)[r - 1] == tail[r - 1]);
            assert(x1[r - 1] == needle[r]);
        }
    }
}

/// One pass makes no match: a needle that occurs in the text after the pass
/// occurred in the text before it. If the needle is the very matcher of the
/// pass, it occurred there twice, the second time beginning inside the
/// first.
pub proof fn lemma_pass_makes_no_match(
    text: Seq<char>,
    alias: Seq<char>,
    outer: int,
    name: Seq<char>,
    inner: int,
    body: Seq<char>,
    at: int,
)
    requires
        0 <= outer < 4,
        0 <= inner < 4,
        alias_is_tame(alias),
        name.len() > 0,
        has_no_quote(name),
        resists(sought(inner, body), outer, alias, name),
        occurs_at(
            replaced(
                text,
                matcher(patterns()[outer], name),
                destination(patterns()[outer], alias, name),
            ),
            sought(inner, body),
            at,
        ),
    ensures
        occurs(text, sought(inner, body)),
        sought(inner, body) == matcher(patterns()[outer], name) ==> overlaps_itself(
            text,
            sought(inner, body),
        ),
    decreases text.len(),
{
    let u = matcher(patterns()[outer], name);
    let v = destination(patterns()[outer], alias, name);
    let x = sought(inner, body);
    let z = replaced(text, u, v);
    lemma_patterns_shape();
    assert(is_keyword_blank_quote(patterns()[inner]));
    if text.len() == 0 {
    } else if occurs_at(text, u, 0) {
        let front = text.subrange(0, u.len() as int);
        let back = text.subrange(u.len() as int, text.len() as int);
        let rest = replaced(back, u, v);
        assert(z == v + rest);
        assert(text =~= front + back);
        if at >= v.len() {
            lemma_occurs_within_back(v, rest, x, at);
            lemma_pass_makes_no_match(back, alias, outer, name, inner, body, at - v.len());
            let found = choose|i: int| occurs_at(back, x, i);
            lemma_occurs_behind_front(front, back, x, found);
            if x == u {
                lemma_overlap_behind_front(front, back, x);
            }
        } else {
            lemma_needle_inside_replacement(text, alias, outer, name, inner, body, at);
        }
    } else {
        let tail = text.subrange(1, text.len() as int);
        let zt = replaced(tail, u, v);
        assert(z == seq![text[0]] + zt);
        assert(text =~= seq![text[0]] + tail);
        if at >= 1 {
            lemma_occurs_within_back(seq![text[0]], zt, x, at);
            lemma_pass_makes_no_match(tail, alias, outer, name, inner, body, at - 1);
            let found = choose|i: int| occurs_at(tail, x, i);
            lemma_occurs_behind_head(text, x, found);
            if x == u {
                lemma_overlap_behind_front(seq![text[0]], tail, x);
            }
        } else {
            lemma_needle_at_unmatched_head(text, alias, outer, name, x);
        }
    }
}

/// In a pattern followed by a body without quote, a pattern stands only at
/// the very beginning, and is that pattern.
pub proof fn lemma_pattern_stands_first(inner: int, body: Seq<char>, outer: int, c: int)
    requires
        0 <= inner < 4,
        0 <= outer < 4,
        has_no_quote(body),
        occurs_at(sought(inner, body), patterns()[outer], c),
    ensures
        c == 0,
        inner == outer,
{
    let q = patterns()[inner];
    let p = patterns()[outer];
    let x = sought(inner, body);
    lemma_patterns_shape();
    assert(is_keyword_blank_quote(p) && is_keyword_blank_quote(q));
    lemma_occurrence_chars(x, p, c);
    let quote = c + p.len() - 1;
    assert(x[c + (p.len() - 1)] == p[p.len() - 1]);
    if quote >= q.len() {
        assert(x[quote] == body[quote - q.len()]);
        assert(false);
    }
    assert(x[quote] == q[quote]);
    assert(quote == q.len() - 1);
    assert forall|r: int| 0 <= r < p.len() implies q[c + r] == p[r] by {
        assert(x[c + r] == p[r]);
        assert(x[c + r] == q[c + r]);
    }
    lemma_pattern_ends_no_other(inner, outer, c);
}

/// A pattern followed by a tame name resists every pass.
pub proof fn lemma_matcher_resists(
    inner: int,
    other: Seq<char>,
    outer: int,
    alias: Seq<char>,
    name: Seq<char>,
)
    requires
        0 <= inner < 4,
        0 <= outer < 4,
        name_is_tame(alias, other),
    ensures
        resists(sought(inner, other), outer, alias, name),
{
    let x = sought(inner, other);
    let p = patterns()[outer];
    assert forall|c: int|
        0 <= c && c + p.len() < x.len() && #[trigger] x.subrange(c, c + p.len())
            == p implies !one_begins_the_other(
        x.subrange(c + p.len(), x.len() as int),
        aliased_name(alias, name),
    ) by {
        lemma_pattern_stands_first(inner, other, outer, c);
        assert(x.subrange(c + p.len(), x.len() as int) =~= other);
        lemma_name_is_no_aliased_name(alias, name, other);
    }
}

/// A pattern followed by the aliased name of a stranger resists the passes
/// for a name that neither begins the stranger nor begins with it.
pub proof fn lemma_aliased_stranger_resists(
    inner: int,
    stranger: Seq<char>,
    outer: int,
    alias: Seq<char>,
    name: Seq<char>,
)
    requires
        0 <= inner < 4,
        0 <= outer < 4,
        alias_is_tame(alias),
        has_no_quote(stranger),
        !one_begins_the_other(stranger, name),
    ensures
        resists(sought(inner, aliased_name(alias, stranger)), outer, alias, name),
{
    let body = aliased_name(alias, stranger);
    let x = sought(inner, body);
    let p = patterns()[outer];
    lemma_aliased_name_has_no_quote(alias, stranger);
    assert forall|c: int|
        0 <= c && c + p.len() < x.len() && #[trigger] x.subrange(c, c + p.len())
            == p implies !one_begins_the_other(
        x.subrange(c + p.len(), x.len() as int),
        aliased_name(alias, name),
    ) by {
        lemma_pattern_stands_first(inner, body, outer, c);
        assert(x.subrange(c + p.len(), x.len() as int) =~= body);
        lemma_aliased_strangers(alias, name, stranger);
    }
}

/// Two copies of a matcher, the second beginning inside the first, resist
/// every pass.
pub proof fn lemma_overlap_resists(
    glued: Seq<char>,
    inner: int,
    other: Seq<char>,
    d: int,
    outer: int,
    alias: Seq<char>,
    name: Seq<char>,
)
    requires
        0 <= inner < 4,
        0 <= outer < 4,
        alias_is_tame(alias),
        has_no_quote(name),
        name_is_tame(alias, other),
        0 < d < sought(inner, other).len(),
        glued.len() == d + sought(inner, other).len(),
        occurs_at(glued, sought(inner, other), 0),
        occurs_at(glued, sought(inner, other), d),
    ensures
        resists(glued, outer, alias, name),
{
    let q = patterns()[inner];
    let p = patterns()[outer];
    let x = sought(inner, other);
    let full = aliased_name(alias, name);
    let wq = q.len() - 2;
    let wp = p.len() - 2;
    lemma_patterns_shape();
    assert(is_keyword_blank_quote(p) && is_keyword_blank_quote(q));
    lemma_occurrence_chars(glued, x, 0);
    lemma_occurrence_chars(glued, x, d);
    lemma_aliased_name_has_no_quote(alias, name);
    assert forall|i: int| 0 <= i < x.len() && i != wq + 1 implies !is_quote(#[trigger] x[i]) by {
        if i < q.len() {
            assert(x[i] == q[i]);
        } else {
            assert(x[i] == other[i - q.len()]);
        }
    }
    assert(x[wq + 1] == q[wq + 1]);
    assert(d + wq + 1 >= x.len()) by {
        if d + wq + 1 < x.len() {
            assert(glued[d + (wq + 1)] == x[wq + 1]);
            assert(glued[0 + (d + wq + 1)] == x[d + wq + 1]);
        }
    }
    assert forall|c: int|
        0 <= c && c + p.len() < glued.len() && #[trigger] glued.subrange(c, c + p.len())
            == p implies !one_begins_the_other(
        glued.subrange(c + p.len(), glued.len() as int),
        full,
    ) by {
        let behind = glued.subrange(c + p.len(), glued.len() as int);
        lemma_occurrence_chars(glued, p, c);
        let quote = c + wp + 1;
        assert(glued[c + (wp + 1)] == p[wp + 1]);
        if quote < x.len() {
            assert(glued[0 + quote] == x[quote]);
            assert(quote == wq + 1);
            assert forall|r: int| 0 <= r < p.len() implies q[c + r] == p[r] by {
                assert(glued[c + r] == p[r]);
                assert(glued[0 + (c + r)] == x[c + r]);
                assert(x[c + r] == q[c + r]);
            }
            lemma_pattern_ends_no_other(inner, outer, c);
            assert(behind[d - 1] == glued[d + (wq + 1)]);
            assert(is_quote(behind[d - 1]));
            if begins_with(full, behind) {
                assert(full.subrange(0, behind.len() as int)[d - 1] == full[d - 1]);
                assert(false);
            }
            if begins_with(behind, full) {
                if full.len() > d - 1 {
                    assert(behind.subrange(0, full.len() as int)[d - 1] == behind[d - 1]);
                    assert(false);
                }
                let slash = alias.len() as int;
                assert(full[slash] == '/');
                assert(behind.subrange(0, full.len() as int)[slash] == behind[slash]);
                let i = q.len() + slash;
                assert(behind[slash] == glued[i]);
                if i < x.len() {
                    assert(glued[0 + i] == x[i]);
                    assert(x[i] == other[slash]);
                    assert(other[slash] != '/');
                } else {
                    assert(glued[d + (i - d)] == x[i - d]);
                    assert(x[i - d] == q[i - d]);
                }
                assert(false);
            }
        } else {
            assert(glued[d + (quote - d)] == x[quote - d]);
            assert(quote - d == wq + 1);
            if wp <= wq {
                assert forall|r: int| 0 <= r < p.len() implies q[(c - d) + r] == p[r] by {
                    assert(glued[c + r] == p[r]);
                    assert(glued[d + (c - d + r)] == x[c - d + r]);
                    assert(x[c - d + r] == q[c - d + r]);
                }
                lemma_pattern_ends_no_other(inner, outer, c - d);
                assert(behind =~= other) by {
                    assert forall|r: int| 0 <= r < other.len() implies behind[r] == other[r] by {
                        assert(glued[d + (q.len() + r)] == x[q.len() + r]);
                    }
                }
                lemma_name_is_no_aliased_name(alias, name, other);
            } else {
                assert forall|r: int| 0 <= r < q.len() implies p[(d - c) + r] == q[r] by {
                    assert(glued[c + (d - c + r)] == p[d - c + r]);
                    assert(glued[d + r] == x[r]);
                    assert(x[r] == q[r]);
                }
                lemma_pattern_ends_no_other(outer, inner, d - c);
                assert(false);
            }
        }
    }
}

/// Two occurrences of a needle, the second beginning inside the first, are
/// one occurrence of the text from the beginning of the first to the end of
/// the second, and the other way round.
pub proof fn lemma_overlap_is_an_occurrence(text: Seq<char>, needle: Seq<char>, a: int, d: int)
    requires
        0 < d < needle.len(),
        0 <= a,
        a + d + needle.len() <= text.len(),
    ensures
        occurs_at(text, needle, a) && occurs_at(text, needle, a + d) <==> occurs_at(
            text.subrange(a, a + d + needle.len()),
            needle,
            0,
        ) && occurs_at(text.subrange(a, a + d + needle.len()), needle, d),
{
    let glued = text.subrange(a, a + d + needle.len());
    assert(glued.subrange(0, needle.len() as int) =~= text.subrange(a, a + needle.len()));
    assert(glued.subrange(d, d + needle.len()) =~= text.subrange(a + d, a + d + needle.len()));
}

/// One pass makes no overlap: where a matcher occurs in the text after the
/// pass twice, the second time beginning inside the first, it did so in the
/// text before the pass.
pub proof fn lemma_pass_makes_no_overlap(
    text: Seq<char>,
    alias: Seq<char>,
    outer: int,
    name: Seq<char>,
    inner: int,
    other: Seq<char>,
)
    requires
        0 <= outer < 4,
        0 <= inner < 4,
        alias_is_tame(alias),
        name.len() > 0,
        has_no_quote(name),
        name_is_tame(alias, other),
        overlaps_itself(
            replaced(
                text,
                matcher(patterns()[outer], name),
                destination(patterns()[outer], alias, name),
            ),
            sought(inner, other),
        ),
    ensures
        overlaps_itself(text, sought(inner, other)),
{
    let q = patterns()[inner];
    let x = sought(inner, other);
    let z = replaced(
        text,
        matcher(patterns()[outer], name),
        destination(patterns()[outer], alias, name),
    );
    let (a, b) = choose|a: int, b: int|
        a < b < a + x.len() && #[trigger] occurs_at(z, x, a) && #[trigger] occurs_at(z, x, b);
    let d = b - a;
    let glued = z.subrange(a, a + d + x.len());
    let body = glued.subrange(q.len() as int, glued.len() as int);
    lemma_overlap_is_an_occurrence(z, x, a, d);
    assert(glued == sought(inner, body)) by {
        lemma_occurrence_chars(glued, x, 0);
        assert forall|r: int| 0 <= r < q.len() implies glued[r] == q[r] by {
            assert(glued[0 + r] == x[r]);
            assert(x[r] == q[r]);
        }
        assert(glued =~= q + body);
    }
    assert(occurs_at(z, glued, a));
    assert(occurs(text, glued)) by {
        lemma_overlap_resists(glued, inner, other, d, outer, alias, name);
        lemma_pass_makes_no_match(text, alias, outer, name, inner, body, a);
    }
    let at = choose|at: int| occurs_at(text, glued, at);
    assert(occurs_at(text, x, at) && occurs_at(text, x, at + d)) by {
        lemma_overlap_is_an_occurrence(text, x, at, d);
    }
}

/// The passes for one name make no overlap of a tame matcher.
pub proof fn lemma_name_makes_no_overlap(
    text: Seq<char>,
    alias: Seq<char>,
    name: Seq<char>,
    count: nat,
    inner: int,
    other: Seq<char>,
)
    requires
        count <= 4,
        0 <= inner < 4,
        alias_is_tame(alias),
        name.len() > 0,
        has_no_quote(name),
        name_is_tame(alias, other),
        overlaps_itself(aliased_through(text, alias, name, count), sought(inner, other)),
    ensures
        overlaps_itself(text, sought(inner, other)),
    decreases count,
{
    lemma_patterns_shape();
    if count > 0 {
        let before = aliased_through(text, alias, name, (count - 1) as nat);
        lemma_pass_makes_no_overlap(before, alias, count - 1, name, inner, other);
        lemma_name_makes_no_overlap(text, alias, name, (count - 1) as nat, inner, other);
    }
}

/// A rewrite makes no overlap of a tame matcher.
pub proof fn lemma_rewrite_makes_no_overlap(
    text: Seq<char>,
    alias: Seq<char>,
    names: Seq<Seq<char>>,
    inner: int,
    other: Seq<char>,
)
    requires
        0 <= inner < 4,
        alias_is_tame(alias),
        forall|i: int| 0 <= i < names.len() ==> name_is_plain(#[trigger] names[i]),
        name_is_tame(alias, other),
        overlaps_itself(rewritten(text, alias, names), sought(inner, other)),
    ensures
        overlaps_itself(text, sought(inner, other)),
    decreases names.len(),
{
    lemma_patterns_shape();
    if names.len() > 0 {
        let first = names.drop_last();
        assert(name_is_plain(names.last()));
        lemma_name_makes_no_overlap(
            rewritten(text, alias, first),
            alias,
            names.last(),
            4,
            inner,
            other,
        );
        assert forall|i: int| 0 <= i < first.len() implies name_is_plain(#[trigger] first[i]) by {
            assert(first[i] == names[i]);
        }
        lemma_rewrite_makes_no_overlap(text, alias, first, inner, other);
    }
}

/// The passes for one name leave no match of a tame matcher that was not
/// there: one that occurs after the first `count` of them occurred before
/// them; and if it is the matcher of one of them, it occurred before them
/// twice, the second time beginning inside the first.
pub proof fn lemma_name_leaves_no_match(
    text: Seq<char>,
    alias: Seq<char>,
    name: Seq<char>,
    count: nat,
    inner: int,
    other: Seq<char>,
    at: int,
)
    requires
        count <= 4,
        0 <= inner < 4,
        alias_is_tame(alias),
        name.len() > 0,
        has_no_quote(name),
        name_is_tame(alias, other),
        occurs_at(aliased_through(text, alias, name, count), sought(inner, other), at),
    ensures
        occurs(text, sought(inner, other)),
        forall|k: int|
            0 <= k < count && sought(inner, other) == matcher(#[trigger] patterns()[k], name)
                ==> overlaps_itself(text, sought(inner, other)),
    decreases count,
{
    lemma_patterns_shape();
    let x = sought(inner, other);
    if count > 0 {
        let before = aliased_through(text, alias, name, (count - 1) as nat);
        lemma_matcher_resists(inner, other, count - 1, alias, name);
        lemma_pass_makes_no_match(before, alias, count - 1, name, inner, other, at);
        let found = choose|i: int| occurs_at(before, x, i);
        lemma_name_leaves_no_match(text, alias, name, (count - 1) as nat, inner, other, found);
        if x == matcher(patterns()[count - 1], name) {
            lemma_name_makes_no_overlap(text, alias, name, (count - 1) as nat, inner, other);
        }
    }
}

/// A rewrite leaves no match of a tame matcher that was not there: one that
/// occurs in the rewritten text occurred in the text before; and if it is
/// the matcher of one of the names, it occurred there twice, the second time
/// beginning inside the first.
pub proof fn lemma_rewrite_leaves_no_match(
    text: Seq<char>,
    alias: Seq<char>,
    names: Seq<Seq<char>>,
    inner: int,
    other: Seq<char>,
    at: int,
)
    requires
        0 <= inner < 4,
        alias_is_tame(alias),
        forall|i: int| 0 <= i < names.len() ==> name_is_plain(#[trigger] names[i]),
        name_is_tame(alias, other),
        occurs_at(rewritten(text, alias, names), sought(inner, other), at),
    ensures
        occurs(text, sought(inner, other)),
        forall|e: int, k: int|
            0 <= e < names.len() && 0 <= k < 4 && sought(inner, other) == matcher(
                #[trigger] patterns()[k],
                #[trigger] names[e],
            ) ==> overlaps_itself(text, sought(inner, other)),
    decreases names.len(),
{
    lemma_patterns_shape();
    let x = sought(inner, other);
    if names.len() > 0 {
        let first = names.drop_last();
        let before = rewritten(text, alias, first);
        assert(name_is_plain(names.last()));
        lemma_name_leaves_no_match(before, alias, names.last(), 4, inner, other, at);
        let found = choose|i: int| occurs_at(before, x, i);
        assert forall|i: int| 0 <= i < first.len() implies name_is_plain(#[trigger] first[i]) by {
            assert(first[i] == names[i]);
        }
        lemma_rewrite_leaves_no_match(text, alias, first, inner, other, found);
        assert forall|e: int, k: int|
            0 <= e < names.len() && 0 <= k < 4 && x == matcher(
                #[trigger] patterns()[k],
                #[trigger] names[e],
            ) implies overlaps_itself(text, x) by {
            if e < names.len() - 1 {
                assert(first[e] == names[e]);
            } else {
                assert(overlaps_itself(before, x));
                lemma_rewrite_makes_no_overlap(text, alias, first, inner, other);
            }
        }
    }
}

/// A rewrite makes no match of a needle that resists all its passes: where
/// the needle occurs in the rewritten text, it occurred in the text before.
pub proof fn lemma_rewrite_makes_no_match(
    text: Seq<char>,
    alias: Seq<char>,
    names: Seq<Seq<char>>,
    count: nat,
    inner: int,
    body: Seq<char>,
    at: int,
)
    requires
        0 <= inner < 4,
        count <= 4,
        alias_is_tame(alias),
        forall|i: int| 0 <= i < names.len() ==> name_is_plain(#[trigger] names[i]),
        forall|i: int, k: int|
            0 <= i < names.len() && 0 <= k < 4 ==> #[trigger] resists(
                sought(inner, body),
                k,
                alias,
                names[i],
            ),
        names.len() > 0,
        occurs_at(
            aliased_through(rewritten(text, alias, names.drop_last()), alias, names.last(), count),
            sought(inner, body),
            at,
        ),
    ensures
        occurs(text, sought(inner, body)),
    decreases names.len(), count,
{
    lemma_patterns_shape();
    let x = sought(inner, body);
    let first = names.drop_last();
    let base = rewritten(text, alias, first);
    if count > 0 {
        let before = aliased_through(base, alias, names.last(), (count - 1) as nat);
        assert(name_is_plain(names.last()));
        assert(resists(x, count - 1, alias, names[names.len() - 1]));
        lemma_pass_makes_no_match(before, alias, count - 1, names.last(), inner, body, at);
        let found = choose|i: int| occurs_at(before, x, i);
        lemma_rewrite_makes_no_match(text, alias, names, (count - 1) as nat, inner, body, found);
    } else if first.len() > 0 {
        assert forall|i: int| 0 <= i < first.len() implies name_is_plain(#[trigger] first[i]) by {
            assert(first[i] == names[i]);
        }
        assert forall|i: int, k: int| 0 <= i < first.len() && 0 <= k < 4 implies #[trigger] resists(
            x,
            k,
            alias,
            first[i],
        ) by {
            assert(first[i] == names[i]);
            assert(resists(x, k, alias, names[i]));
        }
        lemma_rewrite_makes_no_match(text, alias, first, 4, inner, body, at);
    }
}

/// How a needle ends survives a pass forwards: where the text before the
/// pass begins with the needle behind its first `cut` characters, so does
/// the text after the pass. The needle is a pattern followed by a body
/// without quote.
pub proof fn lemma_pass_leaves_head(
    text: Seq<char>,
    alias: Seq<char>,
    outer: int,
    name: Seq<char>,
    inner: int,
    body: Seq<char>,
    cut: int,
)
    requires
        0 <= outer < 4,
        0 <= inner < 4,
        has_no_quote(body),
        1 <= cut <= sought(inner, body).len(),
        begins_with(text, sought(inner, body).subrange(cut, sought(inner, body).len() as int)),
    ensures
        begins_with(
            replaced(
                text,
                matcher(patterns()[outer], name),
                destination(patterns()[outer], alias, name),
            ),
            sought(inner, body).subrange(cut, sought(inner, body).len() as int),
        ),
    decreases text.len(),
{
    let p = patterns()[outer];
    let u = matcher(p, name);
    let v = destination(p, alias, name);
    let x = sought(inner, body);
    let y = x.subrange(cut, x.len() as int);
    let z = replaced(text, u, v);
    lemma_patterns_shape();
    assert forall|r: int| 0 <= r < y.len() implies text[r] == y[r] by {
        assert(text.subrange(0, y.len() as int)[r] == text[r]);
    }
    if y.len() == 0 {
        assert(z.subrange(0, 0) =~= y);
    } else if occurs_at(text, u, 0) {
        let rest = replaced(text.subrange(u.len() as int, text.len() as int), u, v);
        assert(z == v + rest);
        lemma_occurrence_chars(text, u, 0);
        if y.len() <= p.len() {
            assert(z.subrange(0, y.len() as int) =~= y) by {
                assert forall|r: int| 0 <= r < y.len() implies z[r] == y[r] by {
                    assert(text[0 + r] == u[r] && u[r] == p[r]);
                    assert(z[r] == v[r] && v[r] == p[r]);
                }
            }
        } else {
            assert(x.subrange(cut, cut + p.len()) =~= p) by {
                assert forall|r: int| 0 <= r < p.len() implies x[cut + r] == p[r] by {
                    assert(y[r] == x[cut + r]);
                    assert(text[0 + r] == u[r] && u[r] == p[r]);
                }
            }
            lemma_pattern_stands_first(inner, body, outer, cut);
        }
    } else {
        let tail = text.subrange(1, text.len() as int);
        let zt = replaced(tail, u, v);
        assert(z == seq![text[0]] + zt);
        let y1 = x.subrange(cut + 1, x.len() as int);
        assert(y1 =~= y.subrange(1, y.len() as int));
        assert(tail.subrange(0, y1.len() as int) =~= y1) by {
            assert forall|r: int| 0 <= r < y1.len() implies tail[r] == y1[r] by {
                assert(text[r + 1] == y[r + 1]);
            }
        }
        lemma_pass_leaves_head(tail, alias, outer, name, inner, body, cut + 1);
        assert(z.subrange(0, y.len() as int) =~= y) by {
            assert(text[0] == y[0]);
            assert forall|r: int| 1 <= r < y.len() implies z[r] == y[r] by {
                assert(zt.subrange(0, y1.len() as int)[r - 1] == zt[r - 1]);
                assert(y1[r - 1] == y[r]);
            }
        }
    }
}

/// A stranger that begins inside a match: it stands astride the end of the
/// match, and still does behind what the pass puts in.
proof fn lemma_stranger_inside_match(
    text: Seq<char>,
    alias: Seq<char>,
    outer: int,
    name: Seq<char>,
    inner: int,
    body: Seq<char>,
    at: int,
)
    requires
        0 <= outer < 4,
        0 <= inner < 4,
        has_no_quote(name),
        has_no_quote(body),
        !one_begins_the_other(body, name),
        occurs_at(text, matcher(patterns()[outer], name), 0),
        0 <= at < matcher(patterns()[outer], name).len(),
        occurs_at(text, sought(inner, body), at),
    ensures
        occurs(
            destination(patterns()[outer], alias, name) + replaced(
                text.subrange(matcher(patterns()[outer], name).len() as int, text.len() as int),
                matcher(patterns()[outer], name),
                destination(patterns()[outer], alias, name),
            ),
            sought(inner, body),
        ),
{
    let p = patterns()[outer];
    let q = patterns()[inner];
    let u = matcher(p, name);
    let v = destination(p, alias, name);
    let x = sought(inner, body);
    let back = text.subrange(u.len() as int, text.len() as int);
    let rest = replaced(back, u, v);
    let z = v + rest;
    let wp = p.len() - 2;
    let wq = q.len() - 2;
    let quote = at + wq + 1;
    lemma_patterns_shape();
    assert(is_keyword_blank_quote(p) && is_keyword_blank_quote(q));
    lemma_occurrence_chars(text, x, at);
    lemma_occurrence_chars(text, u, 0);
    assert(text[at + (wq + 1)] == x[wq + 1] && x[wq + 1] == q[wq + 1]);
    if quote < u.len() {
        assert(quote == wp + 1) by {
            assert(text[0 + quote] == u[quote]);
            if quote < p.len() {
                assert(u[quote] == p[quote]);
            } else {
                assert(u[quote] == name[quote - p.len()]);
            }
        }
        assert(at == 0 && outer == inner) by {
            assert forall|r: int| 0 <= r < q.len() implies p[at + r] == q[r] by {
                assert(text[at + r] == x[r] && x[r] == q[r]);
                assert(text[0 + (at + r)] == u[at + r] && u[at + r] == p[at + r]);
            }
            lemma_pattern_ends_no_other(outer, inner, at);
        }
        assert(one_begins_the_other(body, name)) by {
            assert forall|r: int| 0 <= r < body.len() && r < name.len() implies body[r]
                == name[r] by {
                assert(text[at + (p.len() + r)] == x[p.len() + r]);
                assert(text[0 + (p.len() + r)] == u[p.len() + r]);
            }
            if body.len() <= name.len() {
                assert(name.subrange(0, body.len() as int) =~= body);
            } else {
                assert(body.subrange(0, name.len() as int) =~= name);
            }
        }
    } else {
        let j = u.len() - at;
        assert forall|r: int| 0 <= r < j implies u[at + r] == q[r] by {
            assert(text[at + r] == x[r] && x[r] == q[r]);
            assert(text[0 + (at + r)] == u[at + r]);
        }
        assert(j <= name.len()) by {
            if j > name.len() {
                let r0 = j - name.len() - 1;
                assert(u[at + r0] == q[r0]);
                assert(u[at + r0] == p[wp + 1]);
            }
        }
        let x1 = x.subrange(j, x.len() as int);
        assert(begins_with(back, x1)) by {
            assert forall|r: int| 0 <= r < x1.len() implies back[r] == x1[r] by {
                assert(text[at + (j + r)] == x[j + r]);
            }
            assert(back.subrange(0, x1.len() as int) =~= x1);
        }
        lemma_pass_leaves_head(back, alias, outer, name, inner, body, j);
        let place = v.len() - j;
        assert(occurs_at(z, x, place)) by {
            assert forall|r: int| 0 <= r < x.len() implies z[place + r] == x[r] by {
                if r < j {
                    assert(z[place + r] == v[place + r]);
                    assert(v[place + r] == name[name.len() - j + r]);
                    assert(u[at + r] == name[name.len() - j + r]);
                    assert(x[r] == q[r]);
                } else {
                    assert(rest.subrange(0, x1.len() as int)[r - j] == rest[r - j]);
                    assert(x1[r - j] == x[r]);
                }
            }
            assert(z.subrange(place, place + x.len()) =~= x);
        }
    }
}

/// A stranger with which the text before a pass begins, where that text
/// does not begin with the matcher: the text after the pass begins with the
/// stranger too.
proof fn lemma_stranger_at_unmatched_head(
    text: Seq<char>,
    alias: Seq<char>,
    outer: int,
    name: Seq<char>,
    inner: int,
    body: Seq<char>,
)
    requires
        0 <= outer < 4,
        0 <= inner < 4,
        has_no_quote(body),
        occurs_at(text, sought(inner, body), 0),
    ensures
        occurs_at(
            seq![text[0]] + replaced(
                text.subrange(1, text.len() as int),
                matcher(patterns()[outer], name),
                destination(patterns()[outer], alias, name),
            ),
            sought(inner, body),
            0,
        ),
{
    let u = matcher(patterns()[outer], name);
    let v = destination(patterns()[outer], alias, name);
    let x = sought(inner, body);
    let tail = text.subrange(1, text.len() as int);
    let zt = replaced(tail, u, v);
    let z = seq![text[0]] + zt;
    let x1 = x.subrange(1, x.len() as int);
    lemma_patterns_shape();
    assert(is_keyword_blank_quote(patterns()[inner]));
    lemma_occurrence_chars(text, x, 0);
    assert(begins_with(tail, x1)) by {
        assert forall|r: int| 0 <= r < x1.len() implies tail[r] == x1[r] by {
            assert(text[0 + (r + 1)] == x[r + 1]);
        }
        assert(tail.subrange(0, x1.len() as int) =~= x1);
    }
    lemma_pass_leaves_head(tail, alias, outer, name, inner, body, 1);
    assert(z.subrange(0, x.len() as int) =~= x) by {
        assert(text[0] == x[0]);
        assert forall|r: int| 1 <= r < x.len() implies z[r] == x[r] by {
            assert(zt.subrange(0, x1.len() as int)[r - 1] == zt[r - 1]);
            assert(x1[r - 1] == x[r]);
        }
    }
}

/// One pass leaves a stranger alone: a pattern followed by a body that
/// neither begins the name of the pass nor begins with it occurs in the text
/// after the pass where it occurred in the text before.
pub proof fn lemma_pass_leaves_stranger(
    text: Seq<char>,
    alias: Seq<char>,
    outer: int,
    name: Seq<char>,
    inner: int,
    body: Seq<char>,
    at: int,
)
    requires
        0 <= outer < 4,
        0 <= inner < 4,
        has_no_quote(name),
        has_no_quote(body),
        !one_begins_the_other(body, name),
        occurs_at(text, sought(inner, body), at),
    ensures
        occurs(
            replaced(
                text,
                matcher(patterns()[outer], name),
                destination(patterns()[outer], alias, name),
            ),
            sought(inner, body),
        ),
    decreases text.len(),
{
    let u = matcher(patterns()[outer], name);
    let v = destination(patterns()[outer], alias, name);
    let x = sought(inner, body);
    let z = replaced(text, u, v);
    lemma_patterns_shape();
    assert(is_keyword_blank_quote(patterns()[inner]));
    if text.len() == 0 {
    } else if occurs_at(text, u, 0) {
        let front = text.subrange(0, u.len() as int);
        let back = text.subrange(u.len() as int, text.len() as int);
        let rest = replaced(back, u, v);
        assert(z == v + rest);
        assert(text =~= front + back);
        if at >= u.len() {
            lemma_occurs_within_back(front, back, x, at);
            lemma_pass_leaves_stranger(back, alias, outer, name, inner, body, at - u.len());
            let found = choose|i: int| occurs_at(rest, x, i);
            lemma_occurs_behind_front(v, rest, x, found);
        } else {
            lemma_stranger_inside_match(text, alias, outer, name, inner, body, at);
        }
    } else {
        let tail = text.subrange(1, text.len() as int);
        let zt = replaced(tail, u, v);
        assert(z == seq![text[0]] + zt);
        assert(text =~= seq![text[0]] + tail);
        if at >= 1 {
            lemma_occurs_within_back(seq![text[0]], tail, x, at);
            lemma_pass_leaves_stranger(tail, alias, outer, name, inner, body, at - 1);
            let found = choose|i: int| occurs_at(zt, x, i);
            lemma_occurs_behind_front(seq![text[0]], zt, x, found);
        } else {
            lemma_stranger_at_unmatched_head(text, alias, outer, name, inner, body);
        }
    }
}

/// A rewrite leaves a stranger alone: a pattern followed by a body that
/// neither begins the name of an entry nor begins with one occurs in the
/// rewritten text where it occurred in the text before.
pub proof fn lemma_rewrite_leaves_stranger(
    text: Seq<char>,
    alias: Seq<char>,
    names: Seq<Seq<char>>,
    count: nat,
    inner: int,
    body: Seq<char>,
)
    requires
        0 <= inner < 4,
        count <= 4,
        forall|i: int| 0 <= i < names.len() ==> has_no_quote(#[trigger] names[i]),
        has_no_quote(body),
        forall|i: int| 0 <= i < names.len() ==> !one_begins_the_other(body, #[trigger] names[i]),
        names.len() > 0,
        occurs(text, sought(inner, body)),
    ensures
        occurs(
            aliased_through(rewritten(text, alias, names.drop_last()), alias, names.last(), count),
            sought(inner, body),
        ),
    decreases names.len(), count,
{
    lemma_patterns_shape();
    let x = sought(inner, body);
    let first = names.drop_last();
    let base = rewritten(text, alias, first);
    if count > 0 {
        let before = aliased_through(base, alias, names.last(), (count - 1) as nat);
        lemma_rewrite_leaves_stranger(text, alias, names, (count - 1) as nat, inner, body);
        let found = choose|i: int| occurs_at(before, x, i);
        assert(has_no_quote(names[names.len() - 1]));
        assert(!one_begins_the_other(body, names[names.len() - 1]));
        lemma_pass_leaves_stranger(before, alias, count - 1, names.last(), inner, body, found);
    } else if first.len() > 0 {
        assert forall|i: int| 0 <= i < first.len() implies has_no_quote(#[trigger] first[i])
            && !one_begins_the_other(body, first[i]) by {
            assert(first[i] == names[i]);
        }
        lemma_rewrite_leaves_stranger(text, alias, first, 4, inner, body);
    }
}

} // verus!
