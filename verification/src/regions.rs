//! Region normalization, selection and latency ranking — the pure half of the CLI.
//!
//! A region is a `{ name, url }` pair, the shape of `edge-regions.json`. Decoding
//! that JSON into `Region` values is the caller's job; everything that decides
//! what a decoded list means lives here.

use vstd::prelude::*;

use crate::text::{
    ascii_lower, chars_equal, chars_of, chars_start_with, decimal, has_prefix, lemma_trimmed, lowered,
    push_decimal,
    push_str, trim, trimmed,
};

verus! {

/// A selectable region: a public name and the endpoint to probe.
#[derive(Debug)]
pub struct Region {
    pub name: String,
    pub url: String,
}

impl Clone for Region {
    fn clone(&self) -> (r: Self)
        ensures
            r == *self,
    {
        Region { name: self.name.clone(), url: self.url.clone() }
    }
}

/// The message for a region whose trimmed name is empty.
pub open spec fn empty_name_message(index: nat) -> Seq<char> {
    "region "@ + decimal(index) + " has an empty name"@
}

/// The message for a region whose trimmed url is empty.
pub open spec fn empty_url_message(name: Seq<char>) -> Seq<char> {
    "region "@ + name + " has an empty url"@
}

/// The message for a region whose url is neither `https://` nor `http://`.
pub open spec fn bad_scheme_message(name: Seq<char>) -> Seq<char> {
    "region "@ + name + " url must start with http(s)"@
}

/// The message for a second region with a name already taken.
pub open spec fn duplicate_message(name: Seq<char>) -> Seq<char> {
    "duplicate region name: "@ + name
}

/// Whether `url` starts with one of the two accepted schemes.
pub open spec fn has_http_scheme(url: Seq<char>) -> bool {
    has_prefix(url, "https://"@) || has_prefix(url, "http://"@)
}

/// What is wrong with region `i` of `rs` once names and urls are trimmed, if
/// anything; a name is a duplicate when an earlier region has it.
pub open spec fn region_problem(rs: Seq<Region>, i: int) -> Option<Seq<char>> {
    let name = trimmed(rs[i].name@);
    let url = trimmed(rs[i].url@);
    if name.len() == 0 {
        Some(empty_name_message(i as nat))
    } else if url.len() == 0 {
        Some(empty_url_message(name))
    } else if !has_http_scheme(url) {
        Some(bad_scheme_message(name))
    } else if exists|j: int| 0 <= j < i && trimmed(#[trigger] rs[j].name@) == name {
        Some(duplicate_message(name))
    } else {
        None
    }
}

/// No region among the first `k` has a problem.
pub open spec fn sound_upto(rs: Seq<Region>, k: int) -> bool {
    forall|i: int| 0 <= i < k ==> #[trigger] region_problem(rs, i) is None
}

/// The first problem among the first `k` regions, if any.
pub open spec fn first_problem(rs: Seq<Region>, k: int) -> Option<Seq<char>>
    decreases k,
{
    if k <= 0 {
        None
    } else {
        match first_problem(rs, k - 1) {
            Some(m) => Some(m),
            None => region_problem(rs, k - 1),
        }
    }
}

/// A region as the pair of texts it holds.
pub open spec fn region_view(r: Region) -> (Seq<char>, Seq<char>) {
    (r.name@, r.url@)
}

/// Regions as the pairs of texts they hold.
pub open spec fn region_views(rs: Seq<Region>) -> Seq<(Seq<char>, Seq<char>)> {
    rs.map_values(|r: Region| region_view(r))
}

/// Regions with name and url trimmed.
pub open spec fn trimmed_views(rs: Seq<Region>) -> Seq<(Seq<char>, Seq<char>)> {
    rs.map_values(|r: Region| (trimmed(r.name@), trimmed(r.url@)))
}

/// What normalizing a decoded list gives: the trimmed regions, or the first
/// problem found.
pub open spec fn normalized(rs: Seq<Region>) -> Result<Seq<(Seq<char>, Seq<char>)>, Seq<char>> {
    match first_problem(rs, rs.len() as int) {
        Some(m) => Err(m),
        None => Ok(trimmed_views(rs)),
    }
}

/// The first problem is found exactly where the earlier regions are sound.
proof fn lemma_first_problem(rs: Seq<Region>, k: int)
    requires
        0 <= k,
    ensures
        first_problem(rs, k) is None <==> sound_upto(rs, k),
        first_problem(rs, k) matches Some(m) ==> exists|i: int|
            0 <= i < k && sound_upto(rs, i) && #[trigger] region_problem(rs, i) == Some(m),
    decreases k,
{
    if k > 0 {
        lemma_first_problem(rs, k - 1);
        if first_problem(rs, k - 1) is None {
            if let Some(m) = region_problem(rs, k - 1) {
                assert(sound_upto(rs, k - 1) && region_problem(rs, k - 1) == Some(m));
            }
        }
    }
}

/// A problem at `i` after sound regions is the first problem of any longer prefix.
proof fn lemma_first_problem_at(rs: Seq<Region>, i: int, k: int)
    requires
        0 <= i < k,
        sound_upto(rs, i),
        region_problem(rs, i) is Some,
    ensures
        first_problem(rs, k) == region_problem(rs, i),
    decreases k,
{
    if k - 1 > i {
        lemma_first_problem_at(rs, i, k - 1);
    } else {
        lemma_first_problem(rs, i);
    }
}

/// Checks and normalizes a decoded region list: names and urls are trimmed, and
/// the first region with a problem (empty name, empty url, a scheme other than
/// http(s), a repeated name) is reported.
pub fn normalize_regions(regions: Vec<Region>) -> (r: Result<Vec<Region>, String>)
    ensures
        match r {
            Ok(out) => normalized(regions@) == Ok::<_, Seq<char>>(region_views(out@)),
            Err(msg) => normalized(regions@) == Err::<Seq<(Seq<char>, Seq<char>)>, _>(msg@),
        },
        r is Ok ==> forall|i: int, j: int|
            0 <= i < j < regions@.len() ==> trimmed(#[trigger] regions@[i].name@) != trimmed(
                #[trigger] regions@[j].name@,
            ),
{
    let mut out: Vec<Region> = Vec::new();
    let mut names: Vec<Vec<char>> = Vec::new();
    let mut index: usize = 0;
    while index < regions.len()
        invariant
            index <= regions@.len(),
            out@.len() == index,
            names@.len() == index,
            sound_upto(regions@, index as int),
            forall|i: int|
                0 <= i < index ==> (#[trigger] out@[i]).name@ == trimmed(regions@[i].name@)
                    && out@[i].url@ == trimmed(regions@[i].url@),
            forall|i: int| 0 <= i < index ==> (#[trigger] names@[i])@ == trimmed(regions@[i].name@),
        decreases regions@.len() - index,
    {
        let name = trim(&regions[index].name);
        let url = trim(&regions[index].url);
        let ghost i = index as int;
        let name_chars = chars_of(name.as_str());
        if name_chars.len() == 0 {
            let mut msg = String::new();
            push_str(&mut msg, "region ");
            push_decimal(&mut msg, index as u64);
            push_str(&mut msg, " has an empty name");
            assert(region_problem(regions@, i) == Some(msg@));
            proof {
                lemma_first_problem_at(regions@, i, regions@.len() as int);
            }
            return Err(msg);
        }
        let url_chars = chars_of(url.as_str());
        if url_chars.len() == 0 {
            let mut msg = String::new();
            push_str(&mut msg, "region ");
            push_str(&mut msg, name.as_str());
            push_str(&mut msg, " has an empty url");
            assert(region_problem(regions@, i) == Some(msg@));
            proof {
                lemma_first_problem_at(regions@, i, regions@.len() as int);
            }
            return Err(msg);
        }
        if !(chars_start_with(&url_chars, "https://") || chars_start_with(&url_chars, "http://")) {
            let mut msg = String::new();
            push_str(&mut msg, "region ");
            push_str(&mut msg, name.as_str());
            push_str(&mut msg, " url must start with http(s)");
            assert(region_problem(regions@, i) == Some(msg@));
            proof {
                lemma_first_problem_at(regions@, i, regions@.len() as int);
            }
            return Err(msg);
        }
        let mut j: usize = 0;
        while j < index
            invariant
                index < regions@.len(),
                j <= index == names@.len(),
                name_chars@ == trimmed(regions@[index as int].name@),
                name_chars@.len() > 0,
                name@ == name_chars@,
                sound_upto(regions@, index as int),
                trimmed(regions@[index as int].url@).len() > 0,
                has_http_scheme(trimmed(regions@[index as int].url@)),
                forall|k: int| 0 <= k < index ==> (#[trigger] names@[k])@ == trimmed(regions@[k].name@),
                forall|k: int| 0 <= k < j ==> trimmed(#[trigger] regions@[k].name@) != name_chars@,
            decreases index - j,
        {
            if vec_equal(&names[j], &name_chars) {
                let mut msg = String::new();
                push_str(&mut msg, "duplicate region name: ");
                push_str(&mut msg, name.as_str());
                assert(trimmed(regions@[j as int].name@) == trimmed(regions@[index as int].name@));
                assert(region_problem(regions@, index as int) == Some(msg@));
                proof {
                    lemma_first_problem_at(regions@, index as int, regions@.len() as int);
                }
                return Err(msg);
            }
            j = j + 1;
        }
        assert(region_problem(regions@, i) is None);
        out.push(Region { name, url });
        names.push(name_chars);
        index = index + 1;
    }
    proof {
        lemma_first_problem(regions@, regions@.len() as int);
        assert(region_views(out@) =~= trimmed_views(regions@));
        lemma_accepted_names_distinct(regions@);
    }
    Ok(out)
}

/// An accepted region list has pairwise distinct trimmed names, every name and
/// url non-blank, and every url with an `http://` or `https://` scheme; a list
/// where any two regions share a trimmed name is refused.
pub proof fn lemma_accepted_names_distinct(rs: Seq<Region>)
    requires
        normalized(rs) is Ok,
    ensures
        forall|i: int, j: int|
            0 <= i < j < rs.len() ==> trimmed(#[trigger] rs[i].name@) != trimmed(#[trigger] rs[j].name@),
        forall|i: int|
            0 <= i < rs.len() ==> trimmed(#[trigger] rs[i].name@).len() > 0 && trimmed(rs[i].url@).len() > 0
                && (has_prefix(trimmed(rs[i].url@), "https://"@) || has_prefix(
                trimmed(rs[i].url@),
                "http://"@,
            )),
{
    lemma_first_problem(rs, rs.len() as int);
    assert forall|i: int, j: int|
        0 <= i < j < rs.len() implies trimmed(#[trigger] rs[i].name@) != trimmed(
        #[trigger] rs[j].name@,
    ) by {
        assert(region_problem(rs, j) is None);
    }
    assert forall|i: int| 0 <= i < rs.len() implies trimmed(#[trigger] rs[i].name@).len() > 0
        && trimmed(rs[i].url@).len() > 0 && (has_prefix(trimmed(rs[i].url@), "https://"@) || has_prefix(
        trimmed(rs[i].url@),
        "http://"@,
    )) by {
        assert(region_problem(rs, i) is None);
    }
}

/// Normalizing is idempotent: an accepted, normalized list is accepted again
/// unchanged.
pub proof fn lemma_normalize_idempotent(rs: Seq<Region>, out: Seq<Region>)
    requires
        normalized(rs) == Ok::<_, Seq<char>>(region_views(out)),
    ensures
        normalized(out) == Ok::<_, Seq<char>>(region_views(out)),
{
    lemma_first_problem(rs, rs.len() as int);
    assert(region_views(out) == trimmed_views(rs));
    assert(out.len() == rs.len()) by {
        assert(region_views(out).len() == out.len());
    }
    assert forall|i: int| 0 <= i < out.len() implies trimmed((#[trigger] out[i]).name@) == out[i].name@
        && trimmed(out[i].url@) == out[i].url@ && out[i].name@ == trimmed(rs[i].name@)
        && out[i].url@ == trimmed(rs[i].url@) by {
        assert(region_views(out)[i] == trimmed_views(rs)[i]);
        lemma_trimmed(rs[i].name@);
        lemma_trimmed(rs[i].url@);
    }
    assert forall|i: int| 0 <= i < out.len() implies #[trigger] region_problem(out, i) is None by {
        assert(region_problem(rs, i) is None);
        if exists|j: int| 0 <= j < i && trimmed(#[trigger] out[j].name@) == trimmed(out[i].name@) {
            let j = choose|j: int| 0 <= j < i && trimmed(#[trigger] out[j].name@) == trimmed(out[i].name@);
            assert(trimmed(rs[j].name@) == trimmed(rs[i].name@));
        }
    }
    lemma_first_problem(out, out.len() as int);
    assert(trimmed_views(out) =~= region_views(out));
}

/// Whether two character vectors are equal.
fn vec_equal(a: &Vec<char>, b: &Vec<char>) -> (eq: bool)
    ensures
        eq == (a@ == b@),
{
    if a.len() != b.len() {
        return false;
    }
    let mut i: usize = 0;
    while i < a.len()
        invariant
            i <= a.len() == b.len(),
            forall|j: int| 0 <= j < i ==> a@[j] == b@[j],
        decreases a.len() - i,
    {
        if a[i] != b[i] {
            return false;
        }
        i = i + 1;
    }
    assert(a@ == b@);
    true
}

/// The regions that `--only` keeps: all of them for an empty `only`, else those
/// named exactly `only`, in their order.
pub open spec fn select_views(vs: Seq<(Seq<char>, Seq<char>)>, only: Seq<char>) -> Seq<
    (Seq<char>, Seq<char>),
> {
    if only.len() == 0 {
        vs
    } else {
        vs.filter(|v: (Seq<char>, Seq<char>)| v.0 == only)
    }
}

/// `Debug` of a string: the text inside double quotes, with escapes.
pub uninterp spec fn debug_quoted(s: Seq<char>) -> Seq<char>;

/// A character that `Debug` of a string writes as itself.
pub open spec fn is_plain_debug_char(c: char) -> bool {
    ' ' <= c <= '~' && c != '"' && c != '\\' && c != '\''
}

/// The message for an `--only` that names no region.
pub open spec fn no_region_message(only: Seq<char>) -> Seq<char> {
    "no region named "@ + debug_quoted(only)
}

/// `<str as Debug>::fmt`, through `format!("{:?}")`: the string quoted, with its
/// escapes. Only this is claimed of it beyond the name: a string of printable
/// ASCII without quotes or backslashes is written as itself between double
/// quotes. Which characters beyond those are escaped, and how, is left unsaid.
#[verifier::external_body]
fn debug_str(s: &str) -> (out: String)
    ensures
        out@ == debug_quoted(s@),
        (forall|i: int| 0 <= i < s@.len() ==> is_plain_debug_char(#[trigger] s@[i])) ==> out@
            == seq!['"'] + s@ + seq!['"'],
{
    format!("{:?}", s)
}

/// Restricts `regions` to those named `only` (the `--only` flag). An empty
/// `only` keeps every region; a name that matches nothing is an error naming it.
pub fn select_regions(regions: Vec<Region>, only: &str) -> (r: Result<Vec<Region>, String>)
    ensures
        match r {
            Ok(out) => region_views(out@) == select_views(region_views(regions@), only@) && (
            only@.len() == 0 || select_views(region_views(regions@), only@).len() > 0),
            Err(msg) => only@.len() > 0 && select_views(region_views(regions@), only@).len() == 0
                && msg@ == no_region_message(only@),
        },
        r is Err <==> (only@.len() > 0 && forall|i: int|
            0 <= i < regions@.len() ==> #[trigger] regions@[i].name@ != only@),
        r matches Err(msg) ==> ((forall|i: int|
            0 <= i < only@.len() ==> is_plain_debug_char(#[trigger] only@[i])) ==> msg@
            == "no region named "@ + seq!['"'] + only@ + seq!['"']),
{
    let only_chars = chars_of(only);
    if only_chars.len() == 0 {
        return Ok(regions);
    }
    let ghost views = region_views(regions@);
    let ghost pred = |v: (Seq<char>, Seq<char>)| v.0 == only@;
    let mut kept: Vec<Region> = Vec::new();
    let mut i: usize = 0;
    while i < regions.len()
        invariant
            i <= regions@.len(),
            only_chars@ == only@,
            views == region_views(regions@),
            pred == (|v: (Seq<char>, Seq<char>)| v.0 == only@),
            region_views(kept@) == views.take(i as int).filter(pred),
        decreases regions@.len() - i,
    {
        proof {
            assert(views.take(i + 1).drop_last() == views.take(i as int));
            reveal_with_fuel(Seq::<_>::filter, 1);
        }
        let name_chars = chars_of(regions[i].name.as_str());
        if vec_equal(&name_chars, &only_chars) {
            let ghost before = kept@;
            kept.push(regions[i].clone());
            assert(region_views(kept@) =~= region_views(before).push(views[i as int]));
        }
        i = i + 1;
    }
    assert(views.take(regions@.len() as int) == views);
    proof {
        broadcast use vstd::seq_lib::group_filter_ensures;

        if kept@.len() == 0 {
            assert forall|j: int| 0 <= j < regions@.len() implies #[trigger] regions@[j].name@
                != only@ by {
                if regions@[j].name@ == only@ {
                    views.lemma_filter_contains(pred, j);
                }
            }
        } else {
            let first = views.filter(pred)[0];
            views.lemma_filter_contains_rev(pred, first);
            let j = choose|j: int| 0 <= j < views.len() && views[j] == first;
            assert(regions@[j].name@ == only@);
        }
    }
    if kept.len() == 0 {
        let mut msg = String::new();
        push_str(&mut msg, "no region named ");
        let quoted = debug_str(only);
        push_str(&mut msg, quoted.as_str());
        return Err(msg);
    }
    Ok(kept)
}

/// A `--json`-style boolean: `1`, `true`, `yes` or `on`, in any ASCII case and
/// with surrounding whitespace.
pub open spec fn is_truthy(s: Seq<char>) -> bool {
    let t = lowered(trimmed(s));
    t == "1"@ || t == "true"@ || t == "yes"@ || t == "on"@
}

/// Interprets a `--json`-style boolean environment value; everything that is not
/// truthy (the empty string among it) is false.
pub fn truthy(s: &str) -> (b: bool)
    ensures
        b == is_truthy(s@),
{
    let t = trim(s);
    let v = chars_of(t.as_str());
    let mut low: Vec<char> = Vec::new();
    let mut i: usize = 0;
    while i < v.len()
        invariant
            i <= v.len(),
            low@ == lowered(v@.take(i as int)),
        decreases v.len() - i,
    {
        let c = v[i];
        let l = if 'A' <= c && c <= 'Z' {
            ((c as u32) + 32) as u8 as char
        } else {
            c
        };
        assert(l == ascii_lower(c)) by {
            if 'A' <= c && c <= 'Z' {
                assert(((c as u32) + 32) < 128);
            }
        }
        low.push(l);
        i = i + 1;
        assert(lowered(v@.take(i as int)) == lowered(v@.take(i - 1 as int)).push(ascii_lower(c)));
    }
    assert(v@.take(v@.len() as int) == v@);
    chars_equal(&low, "1") || chars_equal(&low, "true") || chars_equal(&low, "yes")
        || chars_equal(&low, "on")
}


/// The ranking order on median keys: a reachable region (`Some`) comes before an
/// unreachable one (`None`), and a smaller median before a larger one.
pub open spec fn key_le(a: Option<u64>, b: Option<u64>) -> bool {
    match (a, b) {
        (Some(x), Some(y)) => x <= y,
        (Some(_), None) => true,
        (None, Some(_)) => false,
        (None, None) => true,
    }
}

/// `a` ranks strictly before `b`.
pub open spec fn key_lt(a: Option<u64>, b: Option<u64>) -> bool {
    !key_le(b, a)
}

/// `order` lists every index of `keys` once, ranked by [`key_le`], with equal
/// keys kept in input order.
pub open spec fn is_ranking(keys: Seq<Option<u64>>, order: Seq<usize>) -> bool {
    &&& keys.len() <= usize::MAX
    &&& order.len() == keys.len()
    &&& forall|q: int| 0 <= q < order.len() ==> #[trigger] order[q] < keys.len()
    &&& forall|k: int| 0 <= k < keys.len() ==> #[trigger] order.contains(k as usize)
    &&& forall|p: int, q: int|
        0 <= p < q < order.len() ==> #[trigger] order[p] != #[trigger] order[q]
    &&& forall|p: int, q: int|
        0 <= p < q < order.len() ==> key_le(keys[#[trigger] order[p] as int], keys[#[trigger] order[q] as int])
    &&& forall|p: int, q: int|
        0 <= p < q < order.len() && keys[#[trigger] order[p] as int] == keys[#[trigger] order[q] as int]
            ==> order[p] < order[q]
}

/// `ranked[k]` is `keys[order[k]]`: the keys in ranked order.
pub open spec fn ranked_keys(keys: Seq<Option<u64>>, order: Seq<usize>) -> Seq<Option<u64>> {
    order.map_values(|k: usize| keys[k as int])
}

fn key_less(a: Option<u64>, b: Option<u64>) -> (lt: bool)
    ensures
        lt == key_lt(a, b),
{
    match (a, b) {
        (Some(x), Some(y)) => x < y,
        (Some(_), None) => true,
        (None, Some(_)) => false,
        (None, None) => false,
    }
}

/// The ranking of regions by their median latency keys (`None` for an
/// unreachable region): the returned indices list reachable regions by ascending
/// median, then the unreachable ones; equal keys keep their input order.
pub fn rank_order(medians: &Vec<Option<u64>>) -> (order: Vec<usize>)
    ensures
        is_ranking(medians@, order@),
        forall|p: int, q: int|
            0 <= p < q < order@.len() && medians@[#[trigger] order@[p] as int] is Some
                && medians@[#[trigger] order@[q] as int] is Some ==> medians@[order@[p] as int]->Some_0
                <= medians@[order@[q] as int]->Some_0,
        forall|p: int, q: int|
            0 <= p < q < order@.len() && medians@[#[trigger] order@[p] as int] is None
                ==> medians@[#[trigger] order@[q] as int] is None,
{
    let keys = medians;
    let n = keys.len();
    let mut order: Vec<usize> = Vec::new();
    let mut i: usize = 0;
    while i < n
        invariant
            n == keys@.len(),
            i <= n,
            order@.len() == i,
            forall|q: int| 0 <= q < order@.len() ==> #[trigger] order@[q] < i,
            forall|k: int| 0 <= k < i ==> #[trigger] order@.contains(k as usize),
            forall|p: int, q: int|
                0 <= p < q < order@.len() ==> #[trigger] order@[p] != #[trigger] order@[q],
            forall|p: int, q: int|
                0 <= p < q < order@.len() ==> key_le(
                    keys@[#[trigger] order@[p] as int],
                    keys@[#[trigger] order@[q] as int],
                ),
            forall|p: int, q: int|
                0 <= p < q < order@.len() && keys@[#[trigger] order@[p] as int]
                    == keys@[#[trigger] order@[q] as int] ==> order@[p] < order@[q],
        decreases n - i,
    {
        let ki = keys[i];
        let mut p: usize = 0;
        while p < order.len() && !key_less(ki, keys[order[p]])
            invariant
                n == keys@.len(),
                i < n,
                ki == keys@[i as int],
                p <= order@.len(),
                forall|q: int| 0 <= q < order@.len() ==> #[trigger] order@[q] < i,
                forall|q: int| 0 <= q < p ==> key_le(keys@[#[trigger] order@[q] as int], ki),
            decreases order@.len() - p,
        {
            p = p + 1;
        }
        let ghost old_order = order@;
        assert forall|q: int| p <= q < old_order.len() implies key_lt(
            ki,
            keys@[#[trigger] old_order[q] as int],
        ) by {
            if q > p {
                assert(key_le(keys@[old_order[p as int] as int], keys@[old_order[q] as int]));
            }
        }
        order.insert(p, i);
        assert(order@ == old_order.insert(p as int, i));
        assert forall|k: int| 0 <= k < i + 1 implies #[trigger] order@.contains(k as usize) by {
            if k == i {
                assert(order@[p as int] == i);
            } else {
                assert(old_order.contains(k as usize));
                let q = choose|q: int| 0 <= q < old_order.len() && old_order[q] == k as usize;
                if q < p {
                    assert(order@[q] == k as usize);
                } else {
                    assert(order@[q + 1] == k as usize);
                }
            }
        }
        i = i + 1;
    }
    proof {
        lemma_ranking_numeric(medians@, order@);
    }
    order
}

/// Reachable medians compare as numbers: `key_le` on two reachable keys is `<=`
/// on the medians, every reachable key ranks before every unreachable one, and
/// no unreachable key ranks before a reachable one.
pub proof fn lemma_key_le_numeric(x: u64, y: u64)
    ensures
        key_le(Some(x), Some(y)) <==> x <= y,
        key_lt(Some(x), Some(y)) <==> x < y,
        key_le(Some(x), None),
        !key_le(None, Some(x)),
        key_le(None::<u64>, None),
{
}

/// In any ranking, reachable entries come in ascending numeric order of their
/// medians, and every unreachable entry comes after all reachable ones.
pub proof fn lemma_ranking_numeric(keys: Seq<Option<u64>>, order: Seq<usize>)
    requires
        is_ranking(keys, order),
    ensures
        forall|p: int, q: int|
            0 <= p < q < order.len() && keys[#[trigger] order[p] as int] is Some
                && keys[#[trigger] order[q] as int] is Some ==> keys[order[p] as int]->Some_0
                <= keys[order[q] as int]->Some_0,
        forall|p: int, q: int|
            0 <= p < q < order.len() && keys[#[trigger] order[p] as int] is None
                ==> keys[#[trigger] order[q] as int] is None,
{
    assert forall|p: int, q: int|
        0 <= p < q < order.len() && keys[#[trigger] order[p] as int] is Some
            && keys[#[trigger] order[q] as int] is Some implies keys[order[p] as int]->Some_0
        <= keys[order[q] as int]->Some_0 by {
        assert(key_le(keys[order[p] as int], keys[order[q] as int]));
        lemma_key_le_numeric(keys[order[p] as int]->Some_0, keys[order[q] as int]->Some_0);
    }
    assert forall|p: int, q: int|
        0 <= p < q < order.len() && keys[#[trigger] order[p] as int] is None
            implies keys[#[trigger] order[q] as int] is None by {
        assert(key_le(keys[order[p] as int], keys[order[q] as int]));
    }
}

/// The region ranked first has the numerically least median of all reachable
/// regions: whenever some region is reachable with median `m`, the first ranked
/// key is reachable with a median no larger than `m`.
pub proof fn lemma_closest_least_median(keys: Seq<Option<u64>>, order: Seq<usize>, j: int, m: u64)
    requires
        is_ranking(keys, order),
        0 <= j < keys.len(),
        keys[j] == Some(m),
    ensures
        keys[order[0] as int] is Some,
        keys[order[0] as int]->Some_0 <= m,
{
    lemma_closest_after_rank(keys, order);
    assert(key_le(keys[order[0] as int], keys[j]));
    if let Some(m0) = keys[order[0] as int] {
        lemma_key_le_numeric(m0, m);
    }
}

/// The index of the first reachable entry of an already ranked list, if any.
pub fn closest_index(ranked: &Vec<Option<u64>>) -> (r: Option<usize>)
    ensures
        match r {
            Some(i) => i < ranked@.len() && ranked@[i as int] is Some && forall|j: int|
                0 <= j < i ==> ranked@[j] is None,
            None => forall|j: int| 0 <= j < ranked@.len() ==> ranked@[j] is None,
        },
{
    let mut i: usize = 0;
    while i < ranked.len()
        invariant
            i <= ranked@.len(),
            forall|j: int| 0 <= j < i ==> ranked@[j] is None,
        decreases ranked@.len() - i,
    {
        if ranked[i].is_some() {
            return Some(i);
        }
        i = i + 1;
    }
    None
}

/// Ranking is deterministic: a key sequence has exactly one ranking, so equal
/// medians can never come out in a run-dependent order.
pub proof fn lemma_ranking_unique(keys: Seq<Option<u64>>, o1: Seq<usize>, o2: Seq<usize>)
    requires
        is_ranking(keys, o1),
        is_ranking(keys, o2),
    ensures
        o1 == o2,
{
    if o1 != o2 {
        assert(exists|q: int| 0 <= q < o1.len() && o1[q] != o2[q]) by {
            if forall|q: int| 0 <= q < o1.len() ==> o1[q] == o2[q] {
                assert(o1 =~= o2);
            }
        }
        let q0 = choose|q: int| 0 <= q < o1.len() && o1[q] != o2[q];
        let q = first_difference(o1, o2, q0);
        let a = o1[q];
        let b = o2[q];
        assert(o2.contains((a as int) as usize));
        let r = choose|r: int| 0 <= r < o2.len() && o2[r] == a;
        assert(o1.contains((b as int) as usize));
        let t = choose|t: int| 0 <= t < o1.len() && o1[t] == b;
        if r < q {
            assert(o1[r] == o2[r]);
        }
        if t < q {
            assert(o1[t] == o2[t]);
        }
        assert(q < r && q < t);
        assert(key_le(keys[o2[q] as int], keys[o2[r] as int]));
        assert(key_le(keys[o1[q] as int], keys[o1[t] as int]));
        assert(keys[a as int] == keys[b as int]);
    }
}

/// The first position at or before `q` where `o1` and `o2` differ.
proof fn first_difference(o1: Seq<usize>, o2: Seq<usize>, q: int) -> (f: int)
    requires
        0 <= q < o1.len() <= o2.len(),
        o1[q] != o2[q],
    ensures
        0 <= f <= q,
        o1[f] != o2[f],
        forall|p: int| 0 <= p < f ==> o1[p] == o2[p],
    decreases q,
{
    if exists|p: int| 0 <= p < q && o1[p] != o2[p] {
        let p = choose|p: int| 0 <= p < q && o1[p] != o2[p];
        first_difference(o1, o2, p)
    } else {
        q
    }
}

/// After ranking, the first entry is reachable whenever any region is; it then
/// has the least median of all reachable regions, and it is the earliest region
/// in input order with that median. When no region is reachable, neither is any
/// ranked entry.
pub proof fn lemma_closest_after_rank(keys: Seq<Option<u64>>, order: Seq<usize>)
    requires
        is_ranking(keys, order),
    ensures
        (exists|j: int| 0 <= j < keys.len() && keys[j] is Some) ==> {
            &&& keys[order[0] as int] is Some
            &&& forall|j: int| 0 <= j < keys.len() ==> key_le(keys[order[0] as int], #[trigger] keys[j])
            &&& forall|j: int|
                0 <= j < keys.len() && #[trigger] keys[j] == keys[order[0] as int] ==> order[0] <= j
        },
        (forall|j: int| 0 <= j < keys.len() ==> keys[j] is None) ==> forall|q: int|
            0 <= q < order.len() ==> (#[trigger] ranked_keys(keys, order)[q]) is None,
{
    assert forall|j: int| 0 <= j < keys.len() implies key_le(keys[order[0] as int], #[trigger] keys[j])
        && (keys[j] == keys[order[0] as int] ==> order[0] <= j) by {
        assert(order.contains(j as usize));
        let q = choose|q: int| 0 <= q < order.len() && order[q] == j as usize;
        if q > 0 {
            assert(key_le(keys[order[0] as int], keys[order[q] as int]));
        }
    }
}

/// Key sequences sorted by [`key_le`] that hold the same keys are equal.
pub proof fn lemma_sorted_keys_unique(s: Seq<Option<u64>>, t: Seq<Option<u64>>)
    requires
        forall|p: int, q: int| 0 <= p < q < s.len() ==> key_le(#[trigger] s[p], #[trigger] s[q]),
        forall|p: int, q: int| 0 <= p < q < t.len() ==> key_le(#[trigger] t[p], #[trigger] t[q]),
        s.to_multiset() == t.to_multiset(),
    ensures
        s == t,
    decreases s.len(),
{
    broadcast use vstd::seq_lib::group_to_multiset_ensures;

    assert(s.len() == s.to_multiset().len());
    assert(t.len() == t.to_multiset().len());
    if s.len() > 0 {
        assert(s.to_multiset().count(s[0]) > 0) by {
            assert(s.contains(s[0]));
        }
        assert(t.contains(s[0]));
        let j = choose|j: int| 0 <= j < t.len() && t[j] == s[0];
        if j > 0 {
            assert(key_le(t[0], t[j]));
        }
        assert(s.to_multiset().count(t[0]) > 0) by {
            assert(t.contains(t[0]));
        }
        assert(s.contains(t[0]));
        let i = choose|i: int| 0 <= i < s.len() && s[i] == t[0];
        if i > 0 {
            assert(key_le(s[0], s[i]));
        }
        assert(s[0] == t[0]);
        assert(s.remove(0).to_multiset() == s.to_multiset().remove(s[0]));
        assert(t.remove(0).to_multiset() == t.to_multiset().remove(t[0]));
        lemma_sorted_keys_unique(s.remove(0), t.remove(0));
        assert(s == seq![s[0]] + s.remove(0));
        assert(t == seq![t[0]] + t.remove(0));
    } else {
        assert(s =~= t);
    }
}

/// Reading `f` through an `order` that lists each index below `n` once holds the
/// same values as reading `f` at `0..n`.
proof fn lemma_reordered_multiset(order: Seq<usize>, n: nat, f: spec_fn(usize) -> Option<u64>)
    requires
        n <= usize::MAX,
        order.len() == n,
        forall|q: int| 0 <= q < order.len() ==> #[trigger] order[q] < n,
        forall|k: int| 0 <= k < n ==> #[trigger] order.contains(k as usize),
        forall|p: int, q: int| 0 <= p < q < order.len() ==> #[trigger] order[p] != #[trigger] order[q],
    ensures
        order.map_values(f).to_multiset() == Seq::new(n, |i: int| f(i as usize)).to_multiset(),
    decreases n,
{
    broadcast use vstd::seq_lib::group_to_multiset_ensures;

    if n == 0 {
        assert(order.map_values(f) =~= Seq::new(n, |i: int| f(i as usize)));
    } else {
        let last = (n - 1) as usize;
        assert(order.contains(last));
        let q = choose|q: int| 0 <= q < order.len() && order[q] == last;
        let rest = order.remove(q);
        assert forall|p: int| 0 <= p < rest.len() implies #[trigger] rest[p] < n - 1 by {
            if p < q {
                assert(rest[p] == order[p]);
            } else {
                assert(rest[p] == order[p + 1]);
            }
        }
        assert forall|k: int| 0 <= k < n - 1 implies #[trigger] rest.contains(k as usize) by {
            assert(order.contains(k as usize));
            let p = choose|p: int| 0 <= p < order.len() && order[p] == k as usize;
            if p < q {
                assert(rest[p] == k as usize);
            } else {
                assert(rest[p - 1] == k as usize);
            }
        }
        assert forall|a: int, b: int| 0 <= a < b < rest.len() implies #[trigger] rest[a]
            != #[trigger] rest[b] by {
            let a1 = if a < q { a } else { a + 1 };
            let b1 = if b < q { b } else { b + 1 };
            assert(rest[a] == order[a1] && rest[b] == order[b1]);
        }
        lemma_reordered_multiset(rest, (n - 1) as nat, f);
        let mapped = order.map_values(f);
        assert(rest.map_values(f) =~= mapped.remove(q));
        assert(mapped.remove(q).to_multiset() == mapped.to_multiset().remove(mapped[q]));
        let whole = Seq::new(n, |i: int| f(i as usize));
        let front = Seq::new((n - 1) as nat, |i: int| f(i as usize));
        assert(whole =~= front.push(f(last)));
        assert(whole.to_multiset() == front.to_multiset().insert(f(last)));
        assert(mapped.to_multiset().count(f(last)) > 0) by {
            assert(mapped[q] == f(last));
            assert(mapped.contains(f(last)));
        }
        assert(mapped.to_multiset() =~= mapped.to_multiset().remove(f(last)).insert(f(last)));
    }
}

/// The ranked keys are the input keys, reordered.
pub proof fn lemma_ranked_keys_reorder(keys: Seq<Option<u64>>, order: Seq<usize>)
    requires
        is_ranking(keys, order),
    ensures
        ranked_keys(keys, order).to_multiset() == keys.to_multiset(),
        forall|p: int, q: int|
            0 <= p < q < keys.len() ==> key_le(
                #[trigger] ranked_keys(keys, order)[p],
                #[trigger] ranked_keys(keys, order)[q],
            ),
{
    let f = |k: usize| keys[k as int];
    lemma_reordered_multiset(order, keys.len(), f);
    assert(Seq::new(keys.len(), |i: int| f(i as usize)) =~= keys);
    assert(ranked_keys(keys, order) =~= order.map_values(f));
}

/// Ranking does not depend on the order of its input: two inputs that hold the
/// same median keys rank them into the same key sequence.
pub proof fn lemma_rank_permutation_invariant(
    keys1: Seq<Option<u64>>,
    o1: Seq<usize>,
    keys2: Seq<Option<u64>>,
    o2: Seq<usize>,
)
    requires
        keys1.to_multiset() == keys2.to_multiset(),
        is_ranking(keys1, o1),
        is_ranking(keys2, o2),
    ensures
        ranked_keys(keys1, o1) == ranked_keys(keys2, o2),
{
    lemma_ranked_keys_reorder(keys1, o1);
    lemma_ranked_keys_reorder(keys2, o2);
    lemma_sorted_keys_unique(ranked_keys(keys1, o1), ranked_keys(keys2, o2));
}

} // verus!
