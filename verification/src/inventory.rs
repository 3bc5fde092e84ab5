//! Box-inventory analysis: the repeat-letter checksum over a list of box
//! ids, and the search for pairs of ids that differ in a fixed number of
//! positions, keeping their common part.

use vstd::prelude::*;

use std::collections::HashMap;

use vstd::string::StrSliceExecFns;

verus! {

broadcast use vstd::std_specs::hash::group_hash_axioms;

/// How many entries of the list equal `k`.
pub open spec fn count_occ(s: Seq<u32>, k: u32) -> nat
    decreases s.len(),
{
    if s.len() == 0 {
        0
    } else {
        count_occ(s.drop_last(), k) + if s.last() == k {
            1nat
        } else {
            0nat
        }
    }
}

/// How many characters of the string equal `c`.
pub open spec fn count_char(s: Seq<char>, c: char) -> nat
    decreases s.len(),
{
    if s.len() == 0 {
        0
    } else {
        count_char(s.drop_last(), c) + if s.last() == c {
            1nat
        } else {
            0nat
        }
    }
}

/// Some character of the string appears in it exactly `n` times.
pub open spec fn has_exact_repeat(s: Seq<char>, n: nat) -> bool {
    exists|i: int| 0 <= i < s.len() && count_char(s, #[trigger] s[i]) == n
}

/// How many of the strings contain some character exactly `n` times.
pub open spec fn repeat_count(vs: Seq<&str>, n: nat) -> nat
    decreases vs.len(),
{
    if vs.len() == 0 {
        0
    } else {
        repeat_count(vs.drop_last(), n) + if has_exact_repeat(vs.last()@, n) {
            1nat
        } else {
            0nat
        }
    }
}

proof fn lemma_count_occ_le(s: Seq<u32>, k: u32)
    ensures
        count_occ(s, k) <= s.len(),
    decreases s.len(),
{
    if s.len() > 0 {
        lemma_count_occ_le(s.drop_last(), k);
    }
}

/// An entry of the list is counted at least once.
proof fn lemma_count_occ_pos(s: Seq<u32>, t: int)
    requires
        0 <= t < s.len(),
    ensures
        count_occ(s, s[t]) > 0,
    decreases s.len(),
{
    if t == s.len() - 1 {
    } else {
        lemma_count_occ_pos(s.drop_last(), t);
        assert(s.drop_last()[t] == s[t]);
    }
}

/// Counting a character is counting its code point: the cast from
/// characters to code points loses nothing.
proof fn lemma_count_char_codepoints(s: Seq<char>, cv: Seq<u32>, c: char)
    requires
        cv.len() == s.len(),
        forall|t: int| 0 <= t < s.len() ==> #[trigger] cv[t] == s[t] as u32,
        forall|t: int| 0 <= t < s.len() ==> 0 <= #[trigger] (s[t] as int) <= 0x10FFFF,
        0 <= c as int <= 0x10FFFF,
    ensures
        count_occ(cv, c as u32) == count_char(s, c),
    decreases s.len(),
{
    if s.len() > 0 {
        assert forall|t: int| 0 <= t < s.len() - 1 implies #[trigger] cv.drop_last()[t]
            == s.drop_last()[t] as u32 && 0 <= s.drop_last()[t] as int <= 0x10FFFF by {
            assert(cv[t] == s[t] as u32);
            assert(0 <= s[t] as int <= 0x10FFFF);
        }
        lemma_count_char_codepoints(s.drop_last(), cv.drop_last(), c);
        assert(cv.last() == s.last() as u32);
        if s.last() != c {
            assert(0 <= s.last() as int <= 0x10FFFF);
            assert((s.last() as u32) as int == s.last() as int);
            assert((c as u32) as int == c as int);
            assert(s.last() as int != c as int);
            assert(s.last() as u32 != c as u32);
        }
    }
}

/// Counts how many times each entry occurs: the returned table maps exactly
/// the values that occur to their occurrence counts.
pub fn count_items(values: &[u32]) -> (counts: HashMap<u32, usize>)
    ensures
        forall|k: u32| counts@.contains_key(k) <==> count_occ(values@, k) > 0,
        forall|k: u32| #[trigger]
            counts@.contains_key(k) ==> counts@[k] == count_occ(values@, k),
{
    let n = values.len();
    let mut counts: HashMap<u32, usize> = HashMap::new();
    let mut i: usize = 0;
    while i < n
        invariant
            n == values@.len(),
            i <= n,
            forall|k: u32| counts@.contains_key(k) <==> count_occ(values@.subrange(0, i as int), k)
                > 0,
            forall|k: u32| #[trigger]
                counts@.contains_key(k) ==> counts@[k] == count_occ(
                    values@.subrange(0, i as int),
                    k,
                ),
        decreases n - i,
    {
        let ghost pre = values@.subrange(0, i as int);
        let ghost post = values@.subrange(0, i as int + 1);
        proof {
            assert(post.drop_last() =~= pre);
            assert(post.last() == values@[i as int]);
            lemma_count_occ_le(pre, values@[i as int]);
            assert forall|k: u32| k != values@[i as int] implies count_occ(post, k) == count_occ(
                pre,
                k,
            ) by {}
        }
        let v = values[i];
        let cur = match counts.get(&v) {
            Some(c) => *c,
            None => 0,
        };
        counts.insert(v, cur + 1);
        i += 1;
    }
    proof {
        assert(values@.subrange(0, n as int) =~= values@);
    }
    counts
}

/// True exactly when some character of the string appears in it `n` times,
/// for `n` at least one.
fn has_repeat(s: &str, n: usize) -> (b: bool)
    requires
        n >= 1,
    ensures
        b == has_exact_repeat(s@, n as nat),
{
    let len = s.unicode_len();
    let mut cv: Vec<u32> = Vec::new();
    let mut i: usize = 0;
    while i < len
        invariant
            len == s@.len(),
            i <= len,
            cv@.len() == i,
            forall|t: int| 0 <= t < i ==> #[trigger] cv@[t] == s@[t] as u32,
            forall|t: int| 0 <= t < i ==> 0 <= #[trigger] (s@[t] as int) <= 0x10FFFF,
        decreases len - i,
    {
        let c = s.get_char(i);
        proof {
            assert(0 <= c as int <= 0x10FFFF);
        }
        cv.push(c as u32);
        i += 1;
    }
    let counts = count_items(cv.as_slice());
    let mut found = false;
    let mut t: usize = 0;
    while t < len
        invariant
            len == s@.len(),
            t <= len,
            cv@.len() == len,
            forall|u: int| 0 <= u < len ==> #[trigger] cv@[u] == s@[u] as u32,
            forall|u: int| 0 <= u < len ==> 0 <= #[trigger] (s@[u] as int) <= 0x10FFFF,
            forall|k: u32| counts@.contains_key(k) <==> count_occ(cv@, k) > 0,
            forall|k: u32| #[trigger] counts@.contains_key(k) ==> counts@[k] == count_occ(cv@, k),
            found == (exists|u: int| 0 <= u < t && count_char(s@, #[trigger] s@[u]) == n),
        decreases len - t,
    {
        let key = cv[t];
        proof {
            lemma_count_occ_pos(cv@, t as int);
            lemma_count_char_codepoints(s@, cv@, s@[t as int]);
        }
        let cnt = match counts.get(&key) {
            Some(c) => *c,
            None => 0,
        };
        proof {
            assert(cnt == count_char(s@, s@[t as int]));
        }
        if cnt == n {
            found = true;
        }
        t += 1;
    }
    found
}

/// The repeat-letter checksum: the number of ids with some letter appearing
/// exactly twice, times the number with some letter appearing exactly three
/// times.
pub fn checksum(values: &[&str]) -> (sum: usize)
    requires
        repeat_count(values@, 2) * repeat_count(values@, 3) <= usize::MAX,
    ensures
        sum == repeat_count(values@, 2) * repeat_count(values@, 3),
{
    let n = values.len();
    let mut doubles: usize = 0;
    let mut triples: usize = 0;
    let mut i: usize = 0;
    while i < n
        invariant
            n == values@.len(),
            i <= n,
            doubles == repeat_count(values@.subrange(0, i as int), 2),
            triples == repeat_count(values@.subrange(0, i as int), 3),
            doubles <= i,
            triples <= i,
        decreases n - i,
    {
        let ghost pre = values@.subrange(0, i as int);
        let ghost post = values@.subrange(0, i as int + 1);
        proof {
            assert(post.drop_last() =~= pre);
            assert(post.last() == values@[i as int]);
        }
        let s = values[i];
        if has_repeat(s, 2) {
            doubles += 1;
        }
        if has_repeat(s, 3) {
            triples += 1;
        }
        i += 1;
    }
    proof {
        assert(values@.subrange(0, n as int) =~= values@);
    }
    doubles * triples
}

/// The characters two strings share position by position, in order.
pub open spec fn common_chars(l: Seq<char>, r: Seq<char>) -> Seq<char>
    decreases l.len(),
{
    if l.len() == 0 || r.len() == 0 {
        Seq::empty()
    } else {
        common_chars(l.drop_last(), r.drop_last()) + if l.last() == r.last() {
            seq![l.last()]
        } else {
            Seq::empty()
        }
    }
}

/// What comparing two strings yields: their positionwise common part when
/// they have equal length and differ in exactly `d` positions, and nothing
/// otherwise.
pub open spec fn spec_common_part(l: Seq<char>, r: Seq<char>, d: int) -> Option<Seq<char>> {
    if l.len() != r.len() {
        None
    } else if l.len() - common_chars(l, r).len() == d {
        Some(common_chars(l, r))
    } else {
        None
    }
}

proof fn lemma_common_chars_le(l: Seq<char>, r: Seq<char>)
    ensures
        common_chars(l, r).len() <= l.len(),
    decreases l.len(),
{
    if l.len() > 0 && r.len() > 0 {
        lemma_common_chars_le(l.drop_last(), r.drop_last());
    }
}

/// Keeps the characters two equal-length strings share position by
/// position, when the strings differ in exactly `differences` positions.
pub fn common_string_part(left: &str, right: &str, differences: usize) -> (res: Option<String>)
    ensures
        match res {
            Some(s) => spec_common_part(left@, right@, differences as int) == Some(s@),
            None => spec_common_part(left@, right@, differences as int) is None,
        },
{
    let n = left.unicode_len();
    let m = right.unicode_len();
    if n != m {
        return None;
    }
    let mut common = String::new();
    let mut cnt: usize = 0;
    let mut i: usize = 0;
    while i < n
        invariant
            n == left@.len(),
            n == right@.len(),
            i <= n,
            cnt <= i,
            common@ == common_chars(left@.subrange(0, i as int), right@.subrange(0, i as int)),
            cnt == common@.len(),
        decreases n - i,
    {
        let ghost lpre = left@.subrange(0, i as int);
        let ghost rpre = right@.subrange(0, i as int);
        let ghost lpost = left@.subrange(0, i as int + 1);
        let ghost rpost = right@.subrange(0, i as int + 1);
        proof {
            assert(lpost.drop_last() =~= lpre);
            assert(rpost.drop_last() =~= rpre);
            assert(lpost.last() == left@[i as int]);
            assert(rpost.last() == right@[i as int]);
        }
        let lc = left.get_char(i);
        let rc = right.get_char(i);
        if lc == rc {
            common.push(lc);
            cnt += 1;
            proof {
                assert(common@ =~= common_chars(lpre, rpre) + seq![left@[i as int]]);
            }
        } else {
            proof {
                assert(common@ =~= common_chars(lpre, rpre) + Seq::<char>::empty());
            }
        }
        i += 1;
    }
    proof {
        assert(left@.subrange(0, n as int) =~= left@);
        assert(right@.subrange(0, n as int) =~= right@);
        lemma_common_chars_le(left@, right@);
    }
    if n - cnt == differences {
        Some(common)
    } else {
        None
    }
}

/// A pair of box ids together with the characters they share.
#[derive(Debug, PartialEq, Eq)]
pub struct CommonString<'a> {
    pub left: &'a str,
    pub right: &'a str,
    pub common: String,
}

/// The matching pairs in one row of the pairwise comparison: `(i, j)` for
/// each `j` from the given one up, where the strings at `i` and `j` share
/// all but `d` positions.
pub open spec fn pair_list_row(vs: Seq<&str>, d: int, i: int, j: int) -> Seq<(int, int)>
    decreases vs.len() - j,
{
    if j < 0 || j >= vs.len() {
        Seq::empty()
    } else {
        (if spec_common_part(vs[i]@, vs[j]@, d) is Some {
            seq![(i, j)]
        } else {
            Seq::empty()
        }) + pair_list_row(vs, d, i, j + 1)
    }
}

/// All matching pairs `(i, j)` with `i < j`, in lexicographic order.
pub open spec fn pair_list(vs: Seq<&str>, d: int, i: int) -> Seq<(int, int)>
    decreases vs.len() - i,
{
    if i < 0 || i >= vs.len() {
        Seq::empty()
    } else {
        pair_list_row(vs, d, i, i + 1) + pair_list(vs, d, i + 1)
    }
}

/// Compares every unordered pair of ids, in index order, and keeps each
/// pair that differs in exactly `differences` positions, together with its
/// common part.
pub fn common_string_parts<'a>(strings: &[&'a str], differences: usize) -> (res: Vec<
    CommonString<'a>,
>)
    ensures
        ({
            let pairs = pair_list(strings@, differences as int, 0);
            &&& res@.len() == pairs.len()
            &&& forall|k: int|
                0 <= k < pairs.len() ==> {
                    &&& (#[trigger] res@[k]).left@ == strings@[pairs[k].0]@
                    &&& res@[k].right@ == strings@[pairs[k].1]@
                    &&& spec_common_part(
                        strings@[pairs[k].0]@,
                        strings@[pairs[k].1]@,
                        differences as int,
                    ) == Some(res@[k].common@)
                }
        }),
{
    let n = strings.len();
    let ghost d = differences as int;
    let mut res: Vec<CommonString<'a>> = Vec::new();
    let ghost mut done: Seq<(int, int)> = Seq::empty();
    let mut i: usize = 0;
    while i < n
        invariant
            n == strings@.len(),
            i <= n,
            d == differences as int,
            pair_list(strings@, d, 0) =~= done + pair_list(strings@, d, i as int),
            res@.len() == done.len(),
            forall|k: int|
                0 <= k < done.len() ==> {
                    &&& (#[trigger] res@[k]).left@ == strings@[done[k].0]@
                    &&& res@[k].right@ == strings@[done[k].1]@
                    &&& spec_common_part(strings@[done[k].0]@, strings@[done[k].1]@, d) == Some(
                        res@[k].common@,
                    )
                },
        decreases n - i,
    {
        let mut j: usize = i + 1;
        while j < n
            invariant
                n == strings@.len(),
                i < n,
                i + 1 <= j <= n,
                d == differences as int,
                pair_list(strings@, d, 0) =~= done + pair_list_row(strings@, d, i as int, j as int)
                    + pair_list(strings@, d, i as int + 1),
                res@.len() == done.len(),
                forall|k: int|
                    0 <= k < done.len() ==> {
                        &&& (#[trigger] res@[k]).left@ == strings@[done[k].0]@
                        &&& res@[k].right@ == strings@[done[k].1]@
                        &&& spec_common_part(strings@[done[k].0]@, strings@[done[k].1]@, d)
                            == Some(res@[k].common@)
                    },
            decreases n - j,
        {
            let ghost row = pair_list_row(strings@, d, i as int, j as int);
            let ghost row_rest = pair_list_row(strings@, d, i as int, j as int + 1);
            match common_string_part(strings[i], strings[j], differences) {
                Some(common) => {
                    proof {
                        assert(row =~= seq![(i as int, j as int)] + row_rest);
                        assert(done + row + pair_list(strings@, d, i as int + 1) =~= (done + seq![
                            (i as int, j as int),
                        ]) + row_rest + pair_list(strings@, d, i as int + 1));
                    }
                    res.push(CommonString { left: strings[i], right: strings[j], common });
                    proof {
                        done = done + seq![(i as int, j as int)];
                    }
                },
                None => {
                    proof {
                        assert(row =~= Seq::<(int, int)>::empty() + row_rest);
                        assert(row =~= row_rest);
                    }
                },
            }
            j += 1;
        }
        proof {
            assert(pair_list_row(strings@, d, i as int, n as int) =~= Seq::<(int, int)>::empty());
            assert(done + pair_list_row(strings@, d, i as int, n as int) + pair_list(
                strings@,
                d,
                i as int + 1,
            ) =~= done + pair_list(strings@, d, i as int + 1));
        }
        i += 1;
    }
    proof {
        assert(pair_list(strings@, d, n as int) =~= Seq::<(int, int)>::empty());
        assert(done =~= pair_list(strings@, d, 0));
    }
    res
}

} // verus!
