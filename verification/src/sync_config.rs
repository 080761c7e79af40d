//! Merging the game-data sync settings of the command line, the config file
//! and the environment into the sync command to run.
use vstd::prelude::*;
use crate::sync_cli::{string_views, opt_view, CliView, GameDataSyncCliConfig, GameDataSyncConfigFile,
    chart_items, append_chart_items, file_has_sync_scope, has_sync_scope_values_from_file, file_scope_spec,
    file_scope_values_spec, command_args_spec, any_blank, build_game_data_sync_command_args, append_strings};
use crate::text::{trim_spec, trim, str_chars, ascii_lower, ascii_lower_seq, ascii_lower_spec, chars_eq_str,
    parse_unsigned_spec, parse_unsigned};

verus! {

/// The value of an environment variable when it is not blank.
pub open spec fn non_empty_spec(v: Option<Seq<char>>) -> Option<Seq<char>> {
    match v {
        Some(s) => if trim_spec(s).len() > 0 { Some(s) } else { None },
        None => None,
    }
}

/// The value, when it is not blank.
pub fn non_empty(v: &Option<String>) -> (r: Option<String>)
    ensures
        match non_empty_spec(crate::sync_cli::opt_view(*v)) {
            Some(s) => r matches Some(t) && t@ == s,
            None => r is None,
        },
{
    match v {
        Some(s) => {
            if trim(&str_chars(s.as_str())).len() > 0 {
                Some(s.clone())
            } else {
                None
            }
        },
        None => None,
    }
}

/// Words read as yes.
pub open spec fn truthy(t: Seq<char>) -> bool {
    t == "1"@ || t == "true"@ || t == "yes"@ || t == "on"@
}

/// Words read as no.
pub open spec fn falsy(t: Seq<char>) -> bool {
    t == "0"@ || t == "false"@ || t == "no"@ || t == "off"@
}

/// A yes/no setting; `default` when it is unset, blank or not understood.
pub open spec fn env_bool_spec(v: Option<Seq<char>>, default: bool) -> bool {
    match non_empty_spec(v) {
        Some(s) => {
            let t = ascii_lower_seq(trim_spec(s));
            if truthy(t) { true } else if falsy(t) { false } else { default }
        },
        None => default,
    }
}

fn lower_chars(s: &Vec<char>) -> (r: Vec<char>)
    ensures
        r@ == ascii_lower_seq(s@),
{
    let mut out: Vec<char> = Vec::new();
    let mut i: usize = 0;
    while i < s.len()
        invariant
            i <= s@.len(),
            out@ == s@.subrange(0, i as int).map_values(|c: char| ascii_lower_spec(c)),
        decreases s@.len() - i,
    {
        out.push(ascii_lower(s[i]));
        proof {
            assert(s@.subrange(0, i + 1).map_values(|c: char| ascii_lower_spec(c))
                =~= s@.subrange(0, i as int).map_values(|c: char| ascii_lower_spec(c)).push(ascii_lower_spec(s@[i as int])));
        }
        i = i + 1;
    }
    proof { assert(s@.subrange(0, s@.len() as int) =~= s@); }
    out
}

/// A yes/no setting: "1", "true", "yes", "on" and "0", "false", "no", "off",
/// in any ASCII case and with blanks around; anything else gives `default`.
pub fn env_bool(v: &Option<String>, default: bool) -> (r: bool)
    ensures
        r == env_bool_spec(crate::sync_cli::opt_view(*v), default),
{
    match non_empty(v) {
        Some(s) => {
            let t = lower_chars(&trim(&str_chars(s.as_str())));
            if chars_eq_str(&t, "1") || chars_eq_str(&t, "true") || chars_eq_str(&t, "yes") || chars_eq_str(&t, "on") {
                true
            } else if chars_eq_str(&t, "0") || chars_eq_str(&t, "false") || chars_eq_str(&t, "no") || chars_eq_str(&t, "off") {
                false
            } else {
                default
            }
        },
        None => default,
    }
}

/// A number setting: the value read as a `u64`, when it is one.
pub open spec fn env_u64_spec(v: Option<Seq<char>>) -> Option<u64> {
    match non_empty_spec(v) {
        Some(s) => match parse_unsigned_spec(s, u64::MAX as nat) {
            Some(n) => Some(n as u64),
            None => None,
        },
        None => None,
    }
}

/// A number setting, when it is set and reads as a `u64`.
pub fn env_u64(v: &Option<String>) -> (r: Option<u64>)
    ensures
        r == env_u64_spec(crate::sync_cli::opt_view(*v)),
{
    match non_empty(v) {
        Some(s) => parse_unsigned(&str_chars(s.as_str()), u64::MAX),
        None => None,
    }
}


/// `out` lists the values of `all` once each, in increasing order.
pub open spec fn sorted_events(out: Seq<u32>, all: Seq<u32>) -> bool {
    &&& forall|i: int, j: int| 0 <= i < j < out.len() ==> out[i] < out[j]
    &&& forall|x: u32| out.contains(x) <==> all.contains(x)
}

/// Adds `x` to an increasing list unless it is there.
fn insert_event(out: &mut Vec<u32>, x: u32)
    requires
        forall|i: int, j: int| 0 <= i < j < old(out)@.len() ==> old(out)@[i] < old(out)@[j],
    ensures
        forall|i: int, j: int| 0 <= i < j < final(out)@.len() ==> final(out)@[i] < final(out)@[j],
        final(out)@.contains(x),
        forall|y: u32| #[trigger] final(out)@.contains(y) ==> old(out)@.contains(y) || y == x,
        forall|y: u32| #[trigger] old(out)@.contains(y) ==> final(out)@.contains(y),
{
    let mut p: usize = 0;
    while p < out.len() && out[p] < x
        invariant
            p <= out@.len(),
            forall|i: int| 0 <= i < p ==> #[trigger] out@[i] < x,
        decreases out@.len() - p,
    {
        p = p + 1;
    }
    if p < out.len() && out[p] == x {
        assert(out@[p as int] == x);
        return;
    }
    let ghost before = out@;
    out.insert(p, x);
    proof {
        let after = out@;
        assert(after[p as int] == x);
        assert forall|y: u32| #[trigger] after.contains(y) implies before.contains(y) || y == x by {
            let k = choose|k: int| 0 <= k < after.len() && after[k] == y;
            if k < p { assert(before[k] == y); } else if k > p { assert(before[k - 1] == y); }
        }
        assert forall|y: u32| #[trigger] before.contains(y) implies after.contains(y) by {
            let k = choose|k: int| 0 <= k < before.len() && before[k] == y;
            if k < p { assert(after[k] == y); } else { assert(after[k + 1] == y); }
        }
    }
}

/// Adds every item of `items` to an increasing list, once each.
fn insert_events_all(out: &mut Vec<u32>, items: &Vec<u32>)
    requires
        forall|i: int, j: int| 0 <= i < j < old(out)@.len() ==> old(out)@[i] < old(out)@[j],
    ensures
        forall|i: int, j: int| 0 <= i < j < final(out)@.len() ==> final(out)@[i] < final(out)@[j],
        forall|y: u32| final(out)@.contains(y) <==> (old(out)@.contains(y) || items@.contains(y)),
{
    let ghost start = out@;
    let mut k: usize = 0;
    while k < items.len()
        invariant
            k <= items@.len(),
            forall|i: int, j: int| 0 <= i < j < out@.len() ==> out@[i] < out@[j],
            forall|y: u32| out@.contains(y) <==> (start.contains(y) || items@.subrange(0, k as int).contains(y)),
        decreases items@.len() - k,
    {
        let x = items[k];
        let ghost prev = out@;
        insert_event(out, x);
        proof {
            let pre = items@.subrange(0, k as int);
            let now = items@.subrange(0, k + 1);
            assert(now =~= pre.push(x));
            assert forall|y: u32| now.contains(y) <==> (pre.contains(y) || y == x) by {
                if now.contains(y) {
                    let q = choose|q: int| 0 <= q < now.len() && #[trigger] now[q] == y;
                    if q < k { assert(pre[q] == y); }
                }
                if pre.contains(y) {
                    let q = choose|q: int| 0 <= q < pre.len() && #[trigger] pre[q] == y;
                    assert(now[q] == y);
                }
                if y == x { assert(now[k as int] == y); }
            }
            assert forall|y: u32| out@.contains(y) <==> (start.contains(y) || now.contains(y)) by {
                if out@.contains(y) { assert(prev.contains(y) || y == x); }
                if prev.contains(y) { assert(out@.contains(y)); }
            }
        }
        k = k + 1;
    }
    proof { assert(items@.subrange(0, items@.len() as int) =~= items@); }
}

/// The values of `first` then `second`, once each and in increasing order.
fn merge_events(first: &Vec<u32>, second: &Vec<u32>) -> (r: Vec<u32>)
    ensures
        sorted_events(r@, first@ + second@),
{
    let mut out: Vec<u32> = Vec::new();
    insert_events_all(&mut out, first);
    insert_events_all(&mut out, second);
    proof {
        assert forall|y: u32| out@.contains(y) <==> (first@ + second@).contains(y) by {
            let all = first@ + second@;
            if first@.contains(y) { let q = choose|q: int| 0 <= q < first@.len() && #[trigger] first@[q] == y; assert(all[q] == y); }
            if second@.contains(y) { let q = choose|q: int| 0 <= q < second@.len() && #[trigger] second@[q] == y; assert(all[first@.len() + q] == y); }
            if all.contains(y) {
                let q = choose|q: int| 0 <= q < all.len() && #[trigger] all[q] == y;
                if q < first@.len() { assert(first@[q] == y); } else { assert(second@[q - first@.len()] == y); }
            }
        }
    }
    out
}

/// A chart comes before another by song, then by difficulty.
pub open spec fn chart_before(a: (u32, u8), b: (u32, u8)) -> bool {
    a.0 < b.0 || (a.0 == b.0 && a.1 < b.1)
}

/// `out` lists the charts of `all` once each, in increasing order.
pub open spec fn sorted_charts(out: Seq<(u32, u8)>, all: Seq<(u32, u8)>) -> bool {
    &&& forall|i: int, j: int| 0 <= i < j < out.len() ==> chart_before(out[i], out[j])
    &&& forall|x: (u32, u8)| out.contains(x) <==> all.contains(x)
}

fn chart_less(a: (u32, u8), b: (u32, u8)) -> (r: bool)
    ensures
        r == chart_before(a, b),
{
    a.0 < b.0 || (a.0 == b.0 && a.1 < b.1)
}

/// Adds `x` to an increasing list unless it is there.
fn insert_chart(out: &mut Vec<(u32, u8)>, x: (u32, u8))
    requires
        forall|i: int, j: int| 0 <= i < j < old(out)@.len() ==> chart_before(old(out)@[i], old(out)@[j]),
    ensures
        forall|i: int, j: int| 0 <= i < j < final(out)@.len() ==> chart_before(final(out)@[i], final(out)@[j]),
        final(out)@.contains(x),
        forall|y: (u32, u8)| #[trigger] final(out)@.contains(y) ==> old(out)@.contains(y) || y == x,
        forall|y: (u32, u8)| #[trigger] old(out)@.contains(y) ==> final(out)@.contains(y),
{
    let mut p: usize = 0;
    while p < out.len() && chart_less(out[p], x)
        invariant
            p <= out@.len(),
            forall|i: int| 0 <= i < p ==> chart_before(#[trigger] out@[i], x),
        decreases out@.len() - p,
    {
        p = p + 1;
    }
    if p < out.len() && out[p].0 == x.0 && out[p].1 == x.1 {
        assert(out@[p as int] == x);
        return;
    }
    let ghost before = out@;
    out.insert(p, x);
    proof {
        if p < before.len() {
            assert(chart_before(x, before[p as int]));
            assert forall|j: int| p < j < before.len() implies chart_before(x, #[trigger] before[j]) by {
                assert(chart_before(before[p as int], before[j]));
            }
        }
        assert forall|i: int, j: int| 0 <= i < j < out@.len() implies chart_before(out@[i], out@[j]) by {
            if j < p { assert(out@[i] == before[i] && out@[j] == before[j]); }
            else if j == p { assert(out@[i] == before[i]); }
            else if i < p { assert(out@[i] == before[i] && out@[j] == before[j - 1]); assert(chart_before(before[i], x)); if j - 1 > p { assert(chart_before(x, before[j - 1])); } }
            else if i == p { assert(out@[j] == before[j - 1]); }
            else { assert(out@[i] == before[i - 1] && out@[j] == before[j - 1]); }
        }
        let after = out@;
        assert(after[p as int] == x);
        assert forall|y: (u32, u8)| #[trigger] after.contains(y) implies before.contains(y) || y == x by {
            let k = choose|k: int| 0 <= k < after.len() && after[k] == y;
            if k < p { assert(before[k] == y); } else if k > p { assert(before[k - 1] == y); }
        }
        assert forall|y: (u32, u8)| #[trigger] before.contains(y) implies after.contains(y) by {
            let k = choose|k: int| 0 <= k < before.len() && before[k] == y;
            if k < p { assert(after[k] == y); } else { assert(after[k + 1] == y); }
        }
    }
}

/// Adds every item of `items` to an increasing list, once each.
fn insert_charts_all(out: &mut Vec<(u32, u8)>, items: &Vec<(u32, u8)>)
    requires
        forall|i: int, j: int| 0 <= i < j < old(out)@.len() ==> chart_before(old(out)@[i], old(out)@[j]),
    ensures
        forall|i: int, j: int| 0 <= i < j < final(out)@.len() ==> chart_before(final(out)@[i], final(out)@[j]),
        forall|y: (u32, u8)| final(out)@.contains(y) <==> (old(out)@.contains(y) || items@.contains(y)),
{
    let ghost start = out@;
    let mut k: usize = 0;
    while k < items.len()
        invariant
            k <= items@.len(),
            forall|i: int, j: int| 0 <= i < j < out@.len() ==> chart_before(out@[i], out@[j]),
            forall|y: (u32, u8)| out@.contains(y) <==> (start.contains(y) || items@.subrange(0, k as int).contains(y)),
        decreases items@.len() - k,
    {
        let x = items[k];
        let ghost prev = out@;
        insert_chart(out, x);
        proof {
            let pre = items@.subrange(0, k as int);
            let now = items@.subrange(0, k + 1);
            assert(now =~= pre.push(x));
            assert forall|y: (u32, u8)| now.contains(y) <==> (pre.contains(y) || y == x) by {
                if now.contains(y) {
                    let q = choose|q: int| 0 <= q < now.len() && #[trigger] now[q] == y;
                    if q < k { assert(pre[q] == y); }
                }
                if pre.contains(y) {
                    let q = choose|q: int| 0 <= q < pre.len() && #[trigger] pre[q] == y;
                    assert(now[q] == y);
                }
                if y == x { assert(now[k as int] == y); }
            }
            assert forall|y: (u32, u8)| out@.contains(y) <==> (start.contains(y) || now.contains(y)) by {
                if out@.contains(y) { assert(prev.contains(y) || y == x); }
                if prev.contains(y) { assert(out@.contains(y)); }
            }
        }
        k = k + 1;
    }
    proof { assert(items@.subrange(0, items@.len() as int) =~= items@); }
}

/// The charts of `first` then `second`, once each and in increasing order.
fn merge_charts(first: &Vec<(u32, u8)>, second: &Vec<(u32, u8)>) -> (r: Vec<(u32, u8)>)
    ensures
        sorted_charts(r@, first@ + second@),
{
    let mut out: Vec<(u32, u8)> = Vec::new();
    insert_charts_all(&mut out, first);
    insert_charts_all(&mut out, second);
    proof {
        assert forall|y: (u32, u8)| out@.contains(y) <==> (first@ + second@).contains(y) by {
            let all = first@ + second@;
            if first@.contains(y) { let q = choose|q: int| 0 <= q < first@.len() && #[trigger] first@[q] == y; assert(all[q] == y); }
            if second@.contains(y) { let q = choose|q: int| 0 <= q < second@.len() && #[trigger] second@[q] == y; assert(all[first@.len() + q] == y); }
            if all.contains(y) {
                let q = choose|q: int| 0 <= q < all.len() && #[trigger] all[q] == y;
                if q < first@.len() { assert(first@[q] == y); } else { assert(second@[q - first@.len()] == y); }
            }
        }
    }
    out
}


/// How one path compares with another.
#[derive(Debug, Clone, Copy, PartialEq, Eq, Structural)]
pub enum PathOrder {
    Less,
    Equal,
    Greater,
}

/// What `Path`'s `Ord` answers for two paths written as strings: it compares
/// them component by component.
pub uninterp spec fn path_order(a: Seq<char>, b: Seq<char>) -> PathOrder;

/// The answer with its arguments swapped.
pub open spec fn reversed(o: PathOrder) -> PathOrder {
    match o {
        PathOrder::Less => PathOrder::Greater,
        PathOrder::Equal => PathOrder::Equal,
        PathOrder::Greater => PathOrder::Less,
    }
}

/// Compares two paths with `std::path::Path`'s `Ord::cmp`. `Ord` is documented
/// as a total order: swapping the arguments swaps the answer, and "less" is
/// transitive.
#[verifier::external_body]
fn compare_paths(a: &str, b: &str) -> (r: PathOrder)
    ensures
        r == path_order(a@, b@),
        reversed(r) == path_order(b@, a@),
        forall|c: Seq<char>| r is Less && #[trigger] path_order(b@, c) is Less ==> path_order(a@, c) is Less,
{
    match std::path::Path::new(a).cmp(std::path::Path::new(b)) {
        std::cmp::Ordering::Less => PathOrder::Less,
        std::cmp::Ordering::Equal => PathOrder::Equal,
        std::cmp::Ordering::Greater => PathOrder::Greater,
    }
}

/// Every path of `out` comes before the ones after it.
pub open spec fn paths_increasing(out: Seq<Seq<char>>) -> bool {
    forall|i: int, j: int| 0 <= i < j < out.len() ==> #[trigger] path_order(out[i], out[j]) is Less
}

/// `y` is in `out`, or names the same path as a member of `out`.
pub open spec fn path_covered(y: Seq<char>, out: Seq<Seq<char>>) -> bool {
    exists|m: int| 0 <= m < out.len() && (out[m] == y || #[trigger] path_order(y, out[m]) is Equal)
}

/// `out` lists the paths of `all` in increasing order, one string for each
/// path that `all` names, each string taken from `all`.
pub open spec fn sorted_paths(out: Seq<Seq<char>>, all: Seq<Seq<char>>) -> bool {
    &&& paths_increasing(out)
    &&& forall|k: int| 0 <= k < out.len() ==> all.contains(#[trigger] out[k])
    &&& forall|k: int| 0 <= k < all.len() ==> path_covered(#[trigger] all[k], out)
}

proof fn lemma_covered_kept(y: Seq<char>, a: Seq<Seq<char>>, b: Seq<Seq<char>>)
    requires
        path_covered(y, a),
        forall|k: int| 0 <= k < a.len() ==> b.contains(#[trigger] a[k]),
    ensures
        path_covered(y, b),
{
    let m = choose|m: int| 0 <= m < a.len() && (a[m] == y || #[trigger] path_order(y, a[m]) is Equal);
    assert(b.contains(a[m]));
    let n = choose|n: int| 0 <= n < b.len() && b[n] == a[m];
    assert(b[n] == y || path_order(y, b[n]) is Equal);
}

/// Where `x` goes in an increasing list of paths, and whether it is there already.
fn path_position(out: &Vec<String>, x: &str) -> (r: (usize, bool))
    requires
        paths_increasing(string_views(out@)),
    ensures
        r.0 <= out@.len(),
        forall|i: int| 0 <= i < r.0 ==> #[trigger] path_order(out@[i]@, x@) is Less,
        r.1 ==> r.0 < out@.len() && path_order(x@, out@[r.0 as int]@) is Equal,
        !r.1 && r.0 < out@.len() ==> forall|j: int| r.0 <= j < out@.len() ==> #[trigger] path_order(x@, out@[j]@) is Less,
{
    let ghost views = string_views(out@);
    let mut p: usize = 0;
    while p < out.len()
        invariant
            p <= out@.len(),
            views == string_views(out@),
            paths_increasing(views),
            forall|i: int| 0 <= i < p ==> #[trigger] path_order(out@[i]@, x@) is Less,
        decreases out@.len() - p,
    {
        let o = compare_paths(x, out[p].as_str());
        match o {
            PathOrder::Greater => {
                p = p + 1;
            },
            PathOrder::Equal => {
                return (p, true);
            },
            PathOrder::Less => {
                proof {
                    assert forall|j: int| p <= j < out@.len() implies #[trigger] path_order(x@, out@[j]@) is Less by {
                        if j > p {
                            assert(views[p as int] == out@[p as int]@ && views[j] == out@[j]@);
                            assert(path_order(views[p as int], views[j]) is Less);
                        }
                    }
                }
                return (p, false);
            },
        }
    }
    (p, false)
}

/// Adds path `x` to an increasing list unless it names a path already there.
fn insert_path(out: &mut Vec<String>, x: &String)
    requires
        paths_increasing(string_views(old(out)@)),
    ensures
        paths_increasing(string_views(final(out)@)),
        path_covered(x@, string_views(final(out)@)),
        forall|k: int| 0 <= k < final(out)@.len() ==> #[trigger] final(out)@[k]@ == x@ || string_views(old(out)@).contains(final(out)@[k]@),
        forall|k: int| 0 <= k < old(out)@.len() ==> string_views(final(out)@).contains(#[trigger] old(out)@[k]@),
{
    let ghost before = string_views(out@);
    let (p, found) = path_position(out, x.as_str());
    if found {
        proof {
            assert(before[p as int] == out@[p as int]@);
            assert forall|k: int| 0 <= k < out@.len() implies string_views(out@).contains(#[trigger] out@[k]@) by {
                assert(string_views(out@)[k] == out@[k]@);
            }
        }
        return;
    }
    out.insert(p, x.clone());
    proof {
        let after = string_views(out@);
        assert(after =~= before.insert(p as int, x@));
        assert forall|i: int, j: int| 0 <= i < j < after.len() implies #[trigger] path_order(after[i], after[j]) is Less by {
            if j < p {
                assert(after[i] == before[i] && after[j] == before[j]);
            } else if j == p {
                assert(after[i] == before[i] && after[i] == old(out)@[i]@);
            } else if i < p {
                assert(after[i] == before[i] && after[j] == before[j - 1]);
            } else if i == p {
                assert(after[j] == before[j - 1] && before[j - 1] == old(out)@[j - 1]@);
            } else {
                assert(after[i] == before[i - 1] && after[j] == before[j - 1]);
            }
        }
        assert(after[p as int] == x@ || path_order(x@, after[p as int]) is Equal);
        assert forall|k: int| 0 <= k < out@.len() implies #[trigger] out@[k]@ == x@ || before.contains(out@[k]@) by {
            assert(after[k] == out@[k]@);
            if k < p { assert(before[k] == after[k]); } else if k > p { assert(before[k - 1] == after[k]); }
        }
        assert forall|k: int| 0 <= k < old(out)@.len() implies after.contains(#[trigger] old(out)@[k]@) by {
            assert(before[k] == old(out)@[k]@);
            if k < p { assert(after[k] == before[k]); } else { assert(after[k + 1] == before[k]); }
        }
    }
}


/// Adds every path of `items` to an increasing list, unless it names a path already there.
fn insert_paths_all(out: &mut Vec<String>, items: &Vec<String>)
    requires
        paths_increasing(string_views(old(out)@)),
    ensures
        paths_increasing(string_views(final(out)@)),
        forall|k: int| 0 <= k < final(out)@.len() ==> string_views(old(out)@).contains(#[trigger] final(out)@[k]@)
            || string_views(items@).contains(final(out)@[k]@),
        forall|k: int| 0 <= k < old(out)@.len() ==> string_views(final(out)@).contains(#[trigger] old(out)@[k]@),
        forall|k: int| 0 <= k < items@.len() ==> path_covered(#[trigger] items@[k]@, string_views(final(out)@)),
{
    let ghost start = string_views(out@);
    let ghost all = string_views(items@);
    proof {
        assert forall|q: int| 0 <= q < out@.len() implies start.contains(#[trigger] out@[q]@) by {
            assert(start[q] == out@[q]@);
        }
    }
    let mut k: usize = 0;
    while k < items.len()
        invariant
            k <= items@.len(),
            all == string_views(items@),
            paths_increasing(string_views(out@)),
            forall|q: int| 0 <= q < out@.len() ==> start.contains(#[trigger] out@[q]@) || all.subrange(0, k as int).contains(out@[q]@),
            forall|q: int| 0 <= q < start.len() ==> string_views(out@).contains(#[trigger] start[q]),
            forall|q: int| 0 <= q < k ==> path_covered(#[trigger] items@[q]@, string_views(out@)),
        decreases items@.len() - k,
    {
        let ghost prev = string_views(out@);
        let ghost prev_vec = out@;
        insert_path(out, &items[k]);
        proof {
            let now = string_views(out@);
            let x = items@[k as int]@;
            assert(all[k as int] == x);
            assert forall|q: int| 0 <= q < prev.len() implies now.contains(#[trigger] prev[q]) by {
                assert(prev[q] == prev_vec[q]@);
            }
            assert forall|q: int| 0 <= q < out@.len() implies start.contains(#[trigger] out@[q]@) || all.subrange(0, k + 1).contains(out@[q]@) by {
                if out@[q]@ == x {
                    assert(all.subrange(0, k + 1)[k as int] == x);
                } else {
                    assert(prev.contains(out@[q]@));
                    let m = choose|m: int| 0 <= m < prev.len() && prev[m] == out@[q]@;
                    if !start.contains(out@[q]@) {
                        let n = choose|n: int| 0 <= n < k && all.subrange(0, k as int)[n] == out@[q]@;
                        assert(all.subrange(0, k + 1)[n] == out@[q]@);
                    }
                }
            }
            assert forall|q: int| 0 <= q < start.len() implies now.contains(#[trigger] start[q]) by {
                let m = choose|m: int| 0 <= m < prev.len() && prev[m] == start[q];
                assert(now.contains(prev[m]));
            }
            assert forall|q: int| 0 <= q < k + 1 implies path_covered(#[trigger] items@[q]@, now) by {
                if q < k {
                    lemma_covered_kept(items@[q]@, prev, now);
                }
            }
        }
        k = k + 1;
    }
    proof {
        assert(all.subrange(0, items@.len() as int) =~= all);
        assert forall|q: int| 0 <= q < old(out)@.len() implies string_views(out@).contains(#[trigger] old(out)@[q]@) by {
            assert(start[q] == old(out)@[q]@);
        }
    }
}

/// The paths of `first` then `second`, in increasing order, one string for each path named.
fn merge_paths(first: &Vec<String>, second: &Vec<String>) -> (r: Vec<String>)
    ensures
        sorted_paths(string_views(r@), string_views(first@) + string_views(second@)),
{
    let mut out: Vec<String> = Vec::new();
    proof { assert(string_views(out@) =~= Seq::<Seq<char>>::empty()); }
    insert_paths_all(&mut out, first);
    let ghost mid = string_views(out@);
    insert_paths_all(&mut out, second);
    proof {
        let fin = string_views(out@);
        let all = string_views(first@) + string_views(second@);
        assert forall|k: int| 0 <= k < fin.len() implies all.contains(#[trigger] fin[k]) by {
            assert(fin[k] == out@[k]@);
            if mid.contains(fin[k]) {
                let m = choose|m: int| 0 <= m < mid.len() && mid[m] == fin[k];
                assert(string_views(first@).contains(fin[k]));
                let n = choose|n: int| 0 <= n < first@.len() && string_views(first@)[n] == fin[k];
                assert(all[n] == fin[k]);
            } else {
                assert(string_views(second@).contains(fin[k]));
                let n = choose|n: int| 0 <= n < second@.len() && string_views(second@)[n] == fin[k];
                assert(all[first@.len() + n] == fin[k]);
            }
        }
        assert forall|k: int| 0 <= k < all.len() implies path_covered(#[trigger] all[k], fin) by {
            if k < first@.len() {
                assert(all[k] == first@[k]@);
                assert(path_covered(first@[k]@, mid));
                assert forall|q: int| 0 <= q < mid.len() implies fin.contains(#[trigger] mid[q]) by {
                }
                lemma_covered_kept(first@[k]@, mid, fin);
            } else {
                assert(all[k] == second@[k - first@.len()]@);
            }
        }
    }
    out
}


/// The sync settings found in the environment, one field per variable, as read.
#[derive(Debug, Clone, PartialEq, Eq)]
pub struct GameDataSyncEnv {
    /// `BANGDREAM_OPTIMIZE_GAME_DATA_SYNC_INTERVAL_SECONDS`
    pub interval_seconds: Option<String>,
    /// `BANGDREAM_OPTIMIZE_GAME_DATA_SYNC_ENABLED`
    pub enabled: Option<String>,
    /// `BANGDREAM_OPTIMIZE_GAME_DATA_SYNC_OUT`
    pub out: Option<String>,
    /// `BANGDREAM_OPTIMIZE_GAME_DATA_CACHE_ROOT`
    pub cache_root: Option<String>,
    /// `BANGDREAM_OPTIMIZE_GAME_DATA_ROOT`
    pub game_data_root: Option<String>,
    /// `BANGDREAM_OPTIMIZE_BESTDORI_BASE_URL`
    pub base_url: Option<String>,
    /// `BANGDREAM_OPTIMIZE_GAME_DATA_SYNC_COMMAND`
    pub command: Option<String>,
    /// `BANGDREAM_OPTIMIZE_REPAIR_DIR`
    pub repair_dir: Option<String>,
}

/// What the sync runs: the command's arguments, how often (none: once), and which program.
#[derive(Debug, Clone, PartialEq, Eq)]
pub struct GameDataSyncRuntimeConfig {
    pub args: Vec<String>,
    pub interval_secs: Option<u64>,
    pub command: Option<String>,
}

/// A runtime config as values.
pub struct SyncView {
    pub args: Seq<Seq<char>>,
    pub interval_secs: Option<u64>,
    pub command: Option<Seq<char>>,
}

impl View for GameDataSyncRuntimeConfig {
    type V = SyncView;

    open spec fn view(&self) -> SyncView {
        SyncView { args: string_views(self.args@), interval_secs: self.interval_secs, command: opt_view(self.command) }
    }
}

/// A sync result as values.
pub open spec fn sync_result_view(r: Result<Option<GameDataSyncRuntimeConfig>, String>) -> Result<Option<SyncView>, Seq<char>> {
    match r {
        Ok(Some(c)) => Ok(Some(c@)),
        Ok(None) => Ok(None),
        Err(e) => Err(e@),
    }
}

/// The seconds between syncs when nothing sets them.
pub const DEFAULT_GAME_DATA_SYNC_INTERVAL_SECONDS: u64 = 3600;

/// The first of two options that is set.
pub open spec fn first_some<T>(a: Option<T>, b: Option<T>) -> Option<T> {
    match a {
        Some(_) => a,
        None => b,
    }
}

/// A setting of the config file, when there is one.
pub open spec fn file_opt<T>(file: Option<GameDataSyncConfigFile>, get: spec_fn(GameDataSyncConfigFile) -> Option<T>) -> Option<T> {
    match file {
        Some(f) => get(f),
        None => None,
    }
}

/// A list of the config file; empty when there is none.
pub open spec fn file_list<T>(file: Option<GameDataSyncConfigFile>, get: spec_fn(GameDataSyncConfigFile) -> Seq<T>) -> Seq<T> {
    match file {
        Some(f) => get(f),
        None => Seq::empty(),
    }
}

/// Whether the command line names anything to sync or how.
pub open spec fn cli_scope_spec(c: CliView) -> bool {
    c.events.len() > 0 || c.charts.len() > 0 || c.player_files.len() > 0
        || c.all_event_details is Some || c.all_charts is Some || c.all_card_details is Some
        || c.concurrency is Some || c.retries is Some || c.extra_args.len() > 0
}

/// Whether the command line names anything to sync.
pub open spec fn cli_scope_values_spec(c: CliView) -> bool {
    c.events.len() > 0 || c.charts.len() > 0 || c.player_files.len() > 0
        || c.all_event_details is Some || c.all_charts is Some || c.all_card_details is Some
}

/// The interval asked for: command line, then config file, then environment.
pub open spec fn interval_setting(c: CliView, file: Option<GameDataSyncConfigFile>, env: GameDataSyncEnv) -> Option<u64> {
    first_some(c.interval, first_some(
        file_opt(file, |f: GameDataSyncConfigFile| f.interval_seconds),
        env_u64_spec(opt_view(env.interval_seconds))))
}

/// Whether to sync: as the command line, else the config file, else the
/// environment says (off by default); and anyway when the command line names
/// a scope, or when the config file does not say and names a scope or an
/// interval is set.
pub open spec fn sync_enabled_spec(c: CliView, file: Option<GameDataSyncConfigFile>, env: GameDataSyncEnv) -> bool {
    let file_enabled = file_opt(file, |f: GameDataSyncConfigFile| f.enabled);
    let said = match first_some(c.enabled, file_enabled) {
        Some(b) => b,
        None => env_bool_spec(opt_view(env.enabled), false),
    };
    let file_scope = match file { Some(f) => file_scope_spec(f), None => false };
    said || cli_scope_spec(c) || (file_enabled is None && (file_scope || interval_setting(c, file, env) is Some))
}

/// The seconds between syncs; none (run once) when set to zero.
pub open spec fn interval_secs_spec(c: CliView, file: Option<GameDataSyncConfigFile>, env: GameDataSyncEnv) -> Option<u64> {
    let v = match interval_setting(c, file, env) {
        Some(v) => v,
        None => DEFAULT_GAME_DATA_SYNC_INTERVAL_SECONDS,
    };
    if v > 0 { Some(v) } else { None }
}

/// The output directory: command line, config file, then the sync, cache and
/// game-data roots of the environment, else "var/game-data".
pub open spec fn out_setting(c: CliView, file: Option<GameDataSyncConfigFile>, env: GameDataSyncEnv) -> Seq<char> {
    match first_some(c.out, first_some(file_opt(file, |f: GameDataSyncConfigFile| opt_view(f.out)),
        first_some(non_empty_spec(opt_view(env.out)), first_some(non_empty_spec(opt_view(env.cache_root)),
        non_empty_spec(opt_view(env.game_data_root)))))) {
        Some(s) => s,
        None => "var/game-data"@,
    }
}

/// The Bestdori base URL: command line, config file, environment, else "https://bestdori.com".
pub open spec fn base_url_setting(c: CliView, file: Option<GameDataSyncConfigFile>, env: GameDataSyncEnv) -> Seq<char> {
    match first_some(c.base_url, first_some(file_opt(file, |f: GameDataSyncConfigFile| opt_view(f.base_url)),
        non_empty_spec(opt_view(env.base_url)))) {
        Some(s) => s,
        None => "https://bestdori.com"@,
    }
}

/// The program to run: command line, config file, then environment.
pub open spec fn command_setting(c: CliView, file: Option<GameDataSyncConfigFile>, env: GameDataSyncEnv) -> Option<Seq<char>> {
    first_some(c.command, first_some(file_opt(file, |f: GameDataSyncConfigFile| opt_view(f.command)),
        non_empty_spec(opt_view(env.command))))
}

/// The repair directory asked for: command line, config file, then environment.
pub open spec fn repair_dir_setting(c: CliView, file: Option<GameDataSyncConfigFile>, env: GameDataSyncEnv) -> Option<Seq<char>> {
    first_some(c.repair_dir, first_some(file_opt(file, |f: GameDataSyncConfigFile| opt_view(f.repair_dir)),
        non_empty_spec(opt_view(env.repair_dir))))
}

/// A detail flag: command line, then config file; when neither names a
/// scope, an unset flag counts as set.
pub open spec fn detail_flag(cli_value: Option<bool>, file_value: Option<bool>, scoped: bool) -> Option<bool> {
    let v = first_some(cli_value, file_value);
    if scoped {
        v
    } else {
        Some(match v { Some(b) => b, None => true })
    }
}

/// Whether the command line or the config file names anything to sync.
pub open spec fn scope_for_defaults(c: CliView, file: Option<GameDataSyncConfigFile>) -> bool {
    cli_scope_values_spec(c) || match file { Some(f) => file_scope_values_spec(f), None => false }
}

/// The message for a zero concurrency.
pub open spec fn zero_concurrency_message() -> Seq<char> {
    "BANGDREAM_OPTIMIZE_GAME_DATA_SYNC concurrency must be greater than 0"@
}

/// The message for zero retries.
pub open spec fn zero_retries_message() -> Seq<char> {
    "BANGDREAM_OPTIMIZE_GAME_DATA_SYNC retries must be greater than 0"@
}

/// The sync to run, given the merged events, charts and player files.
pub open spec fn sync_config_spec(
    c: CliView,
    file: Option<GameDataSyncConfigFile>,
    env: GameDataSyncEnv,
    repair_dir_exists: bool,
    events: Seq<u32>,
    charts: Seq<(u32, u8)>,
    players: Seq<Seq<char>>,
) -> Result<Option<SyncView>, Seq<char>> {
    if !sync_enabled_spec(c, file, env) {
        Ok(None)
    } else {
        match chart_items(file_list(file, |f: GameDataSyncConfigFile| string_views(f.charts@))) {
            Err(m) => Err(m),
            Ok(_) => {
                let concurrency = first_some(c.concurrency, file_opt(file, |f: GameDataSyncConfigFile| f.concurrency));
                let retries = first_some(c.retries, file_opt(file, |f: GameDataSyncConfigFile| f.retries));
                if concurrency == Some(0usize) {
                    Err(zero_concurrency_message())
                } else if retries == Some(0usize) {
                    Err(zero_retries_message())
                } else {
                    let scoped = scope_for_defaults(c, file);
                    let args = command_args_spec(
                        out_setting(c, file, env),
                        base_url_setting(c, file, env),
                        if repair_dir_exists { repair_dir_setting(c, file, env) } else { None },
                        events,
                        charts,
                        players,
                        detail_flag(c.all_event_details, file_opt(file, |f: GameDataSyncConfigFile| f.all_event_details), scoped),
                        detail_flag(c.all_charts, file_opt(file, |f: GameDataSyncConfigFile| f.all_charts), scoped),
                        detail_flag(c.all_card_details, file_opt(file, |f: GameDataSyncConfigFile| f.all_card_details), scoped),
                        concurrency,
                        retries,
                        file_list(file, |f: GameDataSyncConfigFile| string_views(f.extra_args@)) + c.extra_args,
                    );
                    if any_blank(args) {
                        Err("game-data sync command arguments must not be empty"@)
                    } else {
                        Ok(Some(SyncView {
                            args,
                            interval_secs: interval_secs_spec(c, file, env),
                            command: command_setting(c, file, env),
                        }))
                    }
                }
            },
        }
    }
}

/// The event, chart and player-file lists merge those of the config file and
/// of the command line, each in increasing order and once.
pub open spec fn merged_lists(
    c: CliView,
    file: Option<GameDataSyncConfigFile>,
    events: Seq<u32>,
    charts: Seq<(u32, u8)>,
    players: Seq<Seq<char>>,
) -> bool {
    &&& sorted_events(events, file_list(file, |f: GameDataSyncConfigFile| f.events@) + c.events)
    &&& match chart_items(file_list(file, |f: GameDataSyncConfigFile| string_views(f.charts@))) {
        Ok(fc) => sorted_charts(charts, fc + c.charts),
        Err(_) => true,
    }
    &&& sorted_paths(players, file_list(file, |f: GameDataSyncConfigFile| string_views(f.player_files@)) + c.player_files)
}


fn first_string(a: &Option<String>, b: Option<String>) -> (r: Option<String>)
    ensures
        opt_view(r) == first_some(opt_view(*a), opt_view(b)),
{
    match a {
        Some(s) => Some(s.clone()),
        None => b,
    }
}

fn file_string(file: &Option<GameDataSyncConfigFile>, pick: u8) -> (r: Option<String>)
    requires
        pick < 4,
    ensures
        opt_view(r) == file_opt(*file, |f: GameDataSyncConfigFile|
            opt_view(if pick == 0 { f.out } else if pick == 1 { f.base_url } else if pick == 2 { f.command } else { f.repair_dir })),
{
    match file {
        Some(f) => {
            let v = if pick == 0 { &f.out } else if pick == 1 { &f.base_url } else if pick == 2 { &f.command } else { &f.repair_dir };
            match v {
                Some(s) => Some(s.clone()),
                None => None,
            }
        },
        None => None,
    }
}

/// Whether the sync runs, as `sync_enabled_spec` says.
pub fn game_data_sync_enabled(cli: &GameDataSyncCliConfig, file: &Option<GameDataSyncConfigFile>, env: &GameDataSyncEnv) -> (r: bool)
    ensures
        r == sync_enabled_spec(cli@, *file, *env),
{
    let file_scope = match file {
        Some(f) => file_has_sync_scope(f),
        None => false,
    };
    let file_interval = match file {
        Some(f) => f.interval_seconds,
        None => None,
    };
    let interval = match cli.interval {
        Some(v) => Some(v),
        None => match file_interval {
            Some(v) => Some(v),
            None => env_u64(&env.interval_seconds),
        },
    };
    let file_enabled = match file {
        Some(f) => f.enabled,
        None => None,
    };
    let said = match cli.enabled {
        Some(b) => b,
        None => match file_enabled {
            Some(b) => b,
            None => env_bool(&env.enabled, false),
        },
    };
    said || cli.has_sync_scope() || (file_enabled.is_none() && (file_scope || interval.is_some()))
}

/// The repair directory the settings ask for, before checking that it exists.
pub fn game_data_sync_repair_dir(cli: &GameDataSyncCliConfig, file: &Option<GameDataSyncConfigFile>, env: &GameDataSyncEnv) -> (r: Option<String>)
    ensures
        opt_view(r) == repair_dir_setting(cli@, *file, *env),
{
    first_string(&cli.repair_dir, first_string(&file_string(file, 3), non_empty(&env.repair_dir)))
}

fn pick_out(cli: &GameDataSyncCliConfig, file: &Option<GameDataSyncConfigFile>, env: &GameDataSyncEnv) -> (r: String)
    ensures
        r@ == out_setting(cli@, *file, *env),
{
    let roots = first_string(&non_empty(&env.out), first_string(&non_empty(&env.cache_root), non_empty(&env.game_data_root)));
    match first_string(&cli.out, first_string(&file_string(file, 0), roots)) {
        Some(s) => s,
        None => "var/game-data".to_owned(),
    }
}

fn pick_base_url(cli: &GameDataSyncCliConfig, file: &Option<GameDataSyncConfigFile>, env: &GameDataSyncEnv) -> (r: String)
    ensures
        r@ == base_url_setting(cli@, *file, *env),
{
    match first_string(&cli.base_url, first_string(&file_string(file, 1), non_empty(&env.base_url))) {
        Some(s) => s,
        None => "https://bestdori.com".to_owned(),
    }
}

fn pick_detail(cli_value: Option<bool>, file_value: Option<bool>, scoped: bool) -> (r: Option<bool>)
    ensures
        r == detail_flag(cli_value, file_value, scoped),
{
    let v = match cli_value {
        Some(b) => Some(b),
        None => file_value,
    };
    if scoped {
        v
    } else {
        Some(match v {
            Some(b) => b,
            None => true,
        })
    }
}


/// Merges the sync settings of the command line, the config file and the
/// environment into the sync to run; none when sync is off. `repair_dir_exists`
/// says whether the directory of `game_data_sync_repair_dir` exists: only then
/// is it handed on. The event, chart and player-file lists are merged as
/// `merged_lists` says; which of two strings naming one path is kept is not
/// fixed.
pub fn game_data_sync_config_from_args(
    cli: &GameDataSyncCliConfig,
    file: &Option<GameDataSyncConfigFile>,
    env: &GameDataSyncEnv,
    repair_dir_exists: bool,
) -> (r: Result<Option<GameDataSyncRuntimeConfig>, String>)
    ensures
        exists|events: Seq<u32>, charts: Seq<(u32, u8)>, players: Seq<Seq<char>>|
            #![trigger sync_config_spec(cli@, *file, *env, repair_dir_exists, events, charts, players)]
            merged_lists(cli@, *file, events, charts, players)
            && sync_result_view(r) == sync_config_spec(cli@, *file, *env, repair_dir_exists, events, charts, players),
{
    let empty_events: Vec<u32> = Vec::new();
    let empty_strings: Vec<String> = Vec::new();
    let file_events = match file { Some(f) => &f.events, None => &empty_events };
    let file_charts = match file { Some(f) => &f.charts, None => &empty_strings };
    let file_players = match file { Some(f) => &f.player_files, None => &empty_strings };
    proof {
        assert(file_events@ == file_list(*file, |f: GameDataSyncConfigFile| f.events@));
        assert(string_views(file_charts@) =~= file_list(*file, |f: GameDataSyncConfigFile| string_views(f.charts@)));
        assert(string_views(file_players@) =~= file_list(*file, |f: GameDataSyncConfigFile| string_views(f.player_files@)));
    }
    let events = merge_events(file_events, &cli.events);
    let players = merge_paths(file_players, &cli.player_files);
    let mut parsed: Vec<(u32, u8)> = Vec::new();
    let parse = append_chart_items(file_charts, &mut parsed);
    let charts = merge_charts(&parsed, &cli.charts);
    proof {
        assert(string_views(cli.player_files@) == cli@.player_files);
        assert(merged_lists(cli@, *file, events@, charts@, string_views(players@)));
    }
    let ghost spec_result = sync_config_spec(cli@, *file, *env, repair_dir_exists, events@, charts@, string_views(players@));
    if !game_data_sync_enabled(cli, file, env) {
        return Ok(None);
    }
    match parse {
        Err(e) => {
            return Err(e);
        },
        Ok(()) => {},
    }
    let concurrency = match cli.concurrency {
        Some(v) => Some(v),
        None => match file { Some(f) => f.concurrency, None => None },
    };
    let retries = match cli.retries {
        Some(v) => Some(v),
        None => match file { Some(f) => f.retries, None => None },
    };
    if concurrency == Some(0usize) {
        proof { reveal_strlit("BANGDREAM_OPTIMIZE_GAME_DATA_SYNC concurrency must be greater than 0"); }
        return Err("BANGDREAM_OPTIMIZE_GAME_DATA_SYNC concurrency must be greater than 0".to_owned());
    }
    if retries == Some(0usize) {
        proof { reveal_strlit("BANGDREAM_OPTIMIZE_GAME_DATA_SYNC retries must be greater than 0"); }
        return Err("BANGDREAM_OPTIMIZE_GAME_DATA_SYNC retries must be greater than 0".to_owned());
    }
    let out = pick_out(cli, file, env);
    let base_url = pick_base_url(cli, file, env);
    let repair = if repair_dir_exists { game_data_sync_repair_dir(cli, file, env) } else { None };
    let command = first_string(&cli.command, first_string(&file_string(file, 2), non_empty(&env.command)));
    let scoped = cli.has_sync_scope_values() || has_sync_scope_values_from_file(file.as_ref());
    let (fe, fc, fk) = match file {
        Some(f) => (f.all_event_details, f.all_charts, f.all_card_details),
        None => (None, None, None),
    };
    let all_event_details = pick_detail(cli.all_event_details, fe, scoped);
    let all_charts = pick_detail(cli.all_charts, fc, scoped);
    let all_card_details = pick_detail(cli.all_card_details, fk, scoped);
    let mut extra: Vec<String> = Vec::new();
    match file {
        Some(f) => append_strings(&mut extra, f.extra_args.clone()),
        None => {},
    }
    append_strings(&mut extra, cli.extra_args.clone());
    let interval_setting_value = match cli.interval {
        Some(v) => Some(v),
        None => match file {
            Some(f) => match f.interval_seconds {
                Some(v) => Some(v),
                None => env_u64(&env.interval_seconds),
            },
            None => env_u64(&env.interval_seconds),
        },
    };
    let interval_value = match interval_setting_value {
        Some(v) => v,
        None => DEFAULT_GAME_DATA_SYNC_INTERVAL_SECONDS,
    };
    let interval_secs = if interval_value > 0 { Some(interval_value) } else { None };
    let repair_ref: Option<&str> = match &repair {
        Some(d) => Some(d.as_str()),
        None => None,
    };
    let built = build_game_data_sync_command_args(
        out.as_str(),
        base_url.as_str(),
        repair_ref,
        events.as_slice(),
        charts.as_slice(),
        players.as_slice(),
        all_event_details,
        all_charts,
        all_card_details,
        concurrency,
        retries,
        extra.as_slice(),
    );
    proof {
        assert(extra@.len() >= 0);
        assert(string_views(extra@) =~= file_list(*file, |f: GameDataSyncConfigFile| string_views(f.extra_args@)) + cli@.extra_args);
        reveal_strlit("game-data sync command arguments must not be empty");
    }
    match built {
        Err(e) => Err(e),
        Ok(args) => Ok(Some(GameDataSyncRuntimeConfig { args, interval_secs, command })),
    }
}


proof fn lemma_increasing_events_equal(a: Seq<u32>, b: Seq<u32>)
    requires
        forall|i: int, j: int| 0 <= i < j < a.len() ==> a[i] < a[j],
        forall|i: int, j: int| 0 <= i < j < b.len() ==> b[i] < b[j],
        forall|x: u32| a.contains(x) <==> b.contains(x),
    ensures
        a == b,
    decreases a.len(),
{
    if a.len() == 0 {
        if b.len() > 0 {
            assert(b.contains(b[0]));
        }
        assert(a =~= b);
    } else {
        assert(a.contains(a[0]));
        let k = choose|k: int| 0 <= k < b.len() && b[k] == a[0];
        assert(b.contains(b[0]));
        let m = choose|m: int| 0 <= m < a.len() && a[m] == b[0];
        assert(a[0] == b[0]);
        let a2 = a.drop_first();
        let b2 = b.drop_first();
        assert forall|x: u32| a2.contains(x) <==> b2.contains(x) by {
            if a2.contains(x) {
                let i = choose|i: int| 0 <= i < a2.len() && a2[i] == x;
                assert(a[i + 1] == x && a[0] < a[i + 1]);
                assert(b.contains(x));
                let j = choose|j: int| 0 <= j < b.len() && b[j] == x;
                assert(j > 0);
                assert(b2[j - 1] == x);
            }
            if b2.contains(x) {
                let i = choose|i: int| 0 <= i < b2.len() && b2[i] == x;
                assert(b[i + 1] == x && b[0] < b[i + 1]);
                assert(a.contains(x));
                let j = choose|j: int| 0 <= j < a.len() && a[j] == x;
                assert(j > 0);
                assert(a2[j - 1] == x);
            }
        }
        lemma_increasing_events_equal(a2, b2);
        assert(a =~= seq![a[0]] + a2);
        assert(b =~= seq![b[0]] + b2);
    }
}

/// The merged event list is determined by what it merges: two lists that
/// each hold the given events once, in increasing order, are the same.
pub proof fn lemma_sorted_events_unique(a: Seq<u32>, b: Seq<u32>, all: Seq<u32>)
    requires
        sorted_events(a, all),
        sorted_events(b, all),
    ensures
        a == b,
{
    lemma_increasing_events_equal(a, b);
}

proof fn lemma_increasing_charts_equal(a: Seq<(u32, u8)>, b: Seq<(u32, u8)>)
    requires
        forall|i: int, j: int| 0 <= i < j < a.len() ==> chart_before(a[i], a[j]),
        forall|i: int, j: int| 0 <= i < j < b.len() ==> chart_before(b[i], b[j]),
        forall|x: (u32, u8)| a.contains(x) <==> b.contains(x),
    ensures
        a == b,
    decreases a.len(),
{
    if a.len() == 0 {
        if b.len() > 0 {
            assert(b.contains(b[0]));
        }
        assert(a =~= b);
    } else {
        assert(a.contains(a[0]));
        let k = choose|k: int| 0 <= k < b.len() && b[k] == a[0];
        assert(b.contains(b[0]));
        let m = choose|m: int| 0 <= m < a.len() && a[m] == b[0];
        if k > 0 && m > 0 {
            assert(chart_before(b[0], b[k]) && chart_before(a[0], a[m]));
        }
        assert(a[0] == b[0]);
        let a2 = a.drop_first();
        let b2 = b.drop_first();
        assert forall|x: (u32, u8)| a2.contains(x) <==> b2.contains(x) by {
            if a2.contains(x) {
                let i = choose|i: int| 0 <= i < a2.len() && a2[i] == x;
                assert(a[i + 1] == x && chart_before(a[0], a[i + 1]));
                assert(b.contains(x));
                let j = choose|j: int| 0 <= j < b.len() && b[j] == x;
                assert(j > 0);
                assert(b2[j - 1] == x);
            }
            if b2.contains(x) {
                let i = choose|i: int| 0 <= i < b2.len() && b2[i] == x;
                assert(b[i + 1] == x && chart_before(b[0], b[i + 1]));
                assert(a.contains(x));
                let j = choose|j: int| 0 <= j < a.len() && a[j] == x;
                assert(j > 0);
                assert(a2[j - 1] == x);
            }
        }
        lemma_increasing_charts_equal(a2, b2);
        assert(a =~= seq![a[0]] + a2);
        assert(b =~= seq![b[0]] + b2);
    }
}

/// The merged chart list is determined by what it merges: two lists that
/// each hold the given charts once, in increasing order, are the same.
pub proof fn lemma_sorted_charts_unique(a: Seq<(u32, u8)>, b: Seq<(u32, u8)>, all: Seq<(u32, u8)>)
    requires
        sorted_charts(a, all),
        sorted_charts(b, all),
    ensures
        a == b,
{
    lemma_increasing_charts_equal(a, b);
}

/// The yes/no words written out: "1", "true", "yes" and "on" read as yes,
/// "0", "false", "no" and "off" as no, and no other word reads as either;
/// syncs run every 3600 seconds when nothing sets the interval.
pub proof fn lemma_yes_no_words(t: Seq<char>)
    ensures
        truthy(t) <==> (t == seq!['1'] || t == seq!['t', 'r', 'u', 'e'] || t == seq!['y', 'e', 's']
            || t == seq!['o', 'n']),
        falsy(t) <==> (t == seq!['0'] || t == seq!['f', 'a', 'l', 's', 'e'] || t == seq!['n', 'o']
            || t == seq!['o', 'f', 'f']),
        DEFAULT_GAME_DATA_SYNC_INTERVAL_SECONDS == 3600,
{
    reveal_strlit("1");
    reveal_strlit("true");
    reveal_strlit("yes");
    reveal_strlit("on");
    reveal_strlit("0");
    reveal_strlit("false");
    reveal_strlit("no");
    reveal_strlit("off");
    assert("1"@ =~= seq!['1']);
    assert("true"@ =~= seq!['t', 'r', 'u', 'e']);
    assert("yes"@ =~= seq!['y', 'e', 's']);
    assert("on"@ =~= seq!['o', 'n']);
    assert("0"@ =~= seq!['0']);
    assert("false"@ =~= seq!['f', 'a', 'l', 's', 'e']);
    assert("no"@ =~= seq!['n', 'o']);
    assert("off"@ =~= seq!['o', 'f', 'f']);
}

} // verus!
