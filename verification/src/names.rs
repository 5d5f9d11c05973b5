use vstd::prelude::*;
use vstd::string::*;

verus! {

/// The views of a sequence of string references.
pub open spec fn name_views(names: Seq<&String>) -> Seq<Seq<char>> {
    names.map_values(|n: &String| n@)
}

/// The ASCII digit for `d` (`0 <= d < 10`).
pub open spec fn digit_char(d: int) -> char {
    (48 + d) as char
}

/// The decimal representation of `n`, without leading zeros.
pub open spec fn decimal_digits(n: nat) -> Seq<char>
    decreases n,
{
    if n < 10 {
        seq![digit_char(n as int)]
    } else {
        decimal_digits(n / 10).push(digit_char((n % 10) as int))
    }
}

/// Whether every character of `s` is an ASCII digit.
pub open spec fn ascii_digits(s: Seq<char>) -> bool {
    forall|i: int| 0 <= i < s.len() ==> '0' <= #[trigger] s[i] <= '9'
}

/// The number that a string of ASCII digits denotes in decimal.
pub open spec fn decimal_value(s: Seq<char>) -> int
    decreases s.len(),
{
    if s.len() == 0 {
        0
    } else {
        decimal_value(s.drop_last()) * 10 + (s.last() as int - 48)
    }
}

/// What `str::parse::<u32>` gives for a string: an optional `+` followed by at least one
/// ASCII digit, denoting a value that fits in a `u32`.
pub open spec fn parsed_u32(s: Seq<char>) -> Option<u32> {
    let d = if s.len() > 0 && s[0] == '+' { s.drop_first() } else { s };
    if d.len() > 0 && ascii_digits(d) && decimal_value(d) <= u32::MAX {
        Some(decimal_value(d) as u32)
    } else {
        None
    }
}

/// `base`, an underscore and the decimal number `n`.
pub open spec fn numbered(base: Seq<char>, n: nat) -> Seq<char> {
    base + seq!['_'] + decimal_digits(n)
}

/// Whether `c` is numeric in the sense of `char::is_numeric`.
pub uninterp spec fn char_numeric(c: char) -> bool;

/// Whether every character of `s` is numeric.
pub open spec fn all_numeric(s: Seq<char>) -> bool {
    forall|i: int| 0 <= i < s.len() ==> char_numeric(#[trigger] s[i])
}

/// The position of the last underscore in `s`, if there is one.
pub open spec fn last_underscore(s: Seq<char>) -> Option<int> {
    if exists|i: int| 0 <= i < s.len() && s[i] == '_' {
        Some(choose|i: int| 0 <= i < s.len() && s[i] == '_' && forall|j: int| i < j < s.len() ==> s[j] != '_')
    } else {
        None
    }
}

/// The name tried after `s` when `s` is taken: a trailing `_<number>` is counted up
/// (wrapping at `u32::MAX`), anything else gets `_0`.
pub open spec fn next_name(s: Seq<char>) -> Seq<char> {
    match last_underscore(s) {
        None => numbered(s, 0),
        Some(i) => {
            let base = s.subrange(0, i);
            let num = s.subrange(i + 1, s.len() as int);
            if all_numeric(num) {
                match parsed_u32(num) {
                    Some(n) => numbered(base, (if n == u32::MAX { 0 } else { n + 1 }) as nat),
                    None => numbered(base, 0),
                }
            } else {
                numbered(base, 0)
            }
        }
    }
}

/// The name tried after `k` collisions, starting from `s`.
pub open spec fn nth_name(s: Seq<char>, k: nat) -> Seq<char>
    decreases k,
{
    if k == 0 { s } else { next_name(nth_name(s, (k - 1) as nat)) }
}

/// `char::is_numeric`: whether the character is in a numeric Unicode category. The ASCII
/// digits are numeric; of other characters nothing is stated.
#[verifier::external_body]
fn char_is_numeric(c: char) -> (r: bool)
    ensures
        r == char_numeric(c),
        '0' <= c <= '9' ==> r,
{
    c.is_numeric()
}

/// `str::parse::<u32>`, as its documentation describes: an optional `+` and decimal
/// digits, with a value that fits.
#[verifier::external_body]
fn parse_u32(s: &str) -> (r: Option<u32>)
    ensures
        r == parsed_u32(s@),
{
    s.parse::<u32>().ok()
}

/// `format!("{}_{}", base, n)`: the base, an underscore and `n` in decimal.
#[verifier::external_body]
fn format_numbered(base: &str, n: u32) -> (r: String)
    ensures
        r@ == numbered(base@, n as nat),
{
    format!("{}_{}", base, n)
}

proof fn lemma_decimal(n: nat)
    ensures
        ascii_digits(decimal_digits(n)),
        decimal_digits(n).len() >= 1,
        decimal_value(decimal_digits(n)) == n,
        !decimal_digits(n).contains('_'),
        !decimal_digits(n).contains('+'),
    decreases n,
{
    assert(digit_char((n % 10) as int) as int == 48 + (n % 10));
    if n >= 10 {
        lemma_decimal(n / 10);
        let d = decimal_digits(n);
        assert(d.drop_last() =~= decimal_digits(n / 10));
        assert(decimal_value(d) == decimal_value(decimal_digits(n / 10)) * 10 + (n % 10));
        assert((n / 10) * 10 + n % 10 == n) by (nonlinear_arith);
        assert forall|i: int| 0 <= i < d.len() implies '0' <= #[trigger] d[i] <= '9' by {
            if i < d.len() - 1 {
                assert(d[i] == decimal_digits(n / 10)[i]);
            }
        }
        assert(!d.contains('_')) by {
            if d.contains('_') {
                let i = choose|i: int| 0 <= i < d.len() && d[i] == '_';
                assert('0' <= d[i] <= '9');
            }
        }
        assert(!d.contains('+')) by {
            if d.contains('+') {
                let i = choose|i: int| 0 <= i < d.len() && d[i] == '+';
                assert('0' <= d[i] <= '9');
            }
        }
    } else {
        let d = decimal_digits(n);
        assert(d.drop_last() =~= Seq::<char>::empty());
        assert(n % 10 == n);
        assert(d.last() == digit_char(n as int));
        assert(decimal_value(d) == decimal_value(d.drop_last()) * 10 + (d.last() as int - 48));
        assert(!d.contains('_')) by {
            if d.contains('_') {
                let i = choose|i: int| 0 <= i < d.len() && d[i] == '_';
                assert(i == 0);
            }
        }
        assert(!d.contains('+')) by {
            if d.contains('+') {
                let i = choose|i: int| 0 <= i < d.len() && d[i] == '+';
                assert(i == 0);
            }
        }
    }
}

/// Distinct numbers give distinct numbered names.
proof fn lemma_numbered_injective(base: Seq<char>, a: nat, b: nat)
    requires
        numbered(base, a) == numbered(base, b),
    ensures
        a == b,
{
    lemma_decimal(a);
    lemma_decimal(b);
    let sa = numbered(base, a);
    assert(sa.subrange(base.len() + 1int, sa.len() as int) =~= decimal_digits(a));
    let sb = numbered(base, b);
    assert(sb.subrange(base.len() + 1int, sb.len() as int) =~= decimal_digits(b));
}

/// The number `t` steps after `k0`, counting modulo 2^32 (for `t < 2^32`).
pub open spec fn count_from(k0: int, t: int) -> int {
    if k0 + t < 0x1_0000_0000 { k0 + t } else { k0 + t - 0x1_0000_0000 }
}

/// Taking a numbered name that collides gives the next number, when the digits of the
/// number count as numeric.
proof fn lemma_next_numbered(base: Seq<char>, n: u32)
    requires
        all_numeric(decimal_digits(n as nat)),
    ensures
        next_name(numbered(base, n as nat)) == numbered(base, (if n == u32::MAX { 0 } else { n + 1 }) as nat),
{
    lemma_decimal(n as nat);
    let s = numbered(base, n as nat);
    let d = decimal_digits(n as nat);
    let b = base.len() as int;
    assert(s[b] == '_');
    assert forall|j: int| b < j < s.len() implies s[j] != '_' by {
        assert(s[j] == d[j - b - 1]);
        assert('0' <= d[j - b - 1] <= '9');
    }
    let i = choose|i: int| 0 <= i < s.len() && s[i] == '_' && forall|j: int| i < j < s.len() ==> s[j] != '_';
    assert(i == b) by {
        if i < b {
            assert(s[b] == '_');
        } else if i > b {
            assert(s[i] == d[i - b - 1]);
            assert('0' <= d[i - b - 1] <= '9');
        }
    }
    assert(last_underscore(s) == Some(b));
    assert(s.subrange(0, b) =~= base);
    assert(s.subrange(b + 1, s.len() as int) =~= d);
    assert(d[0] != '+') by {
        assert('0' <= d[0] <= '9');
    }
    assert(parsed_u32(d) == Some(n));
}

/// Numbered names with `t` steps counted from the same start are distinct, so at most as
/// many of them as `list` has entries can all be in `list`.
proof fn lemma_numbered_bound(list: Seq<Seq<char>>, base: Seq<char>, k0: int, m: int)
    requires
        0 <= k0 < 0x1_0000_0000,
        0 <= m <= 0x1_0000_0000,
        forall|t: int| 0 <= t < m ==> list.contains(#[trigger] numbered(base, count_from(k0, t) as nat)),
    ensures
        m <= list.len(),
{
    let f = |t: int| numbered(base, count_from(k0, t) as nat);
    let range = vstd::set_lib::set_int_range(0, m);
    vstd::set_lib::lemma_int_range(0, m);
    assert(vstd::relations::injective_on(f, range)) by {
        assert forall|x: int, y: int| range.contains(x) && range.contains(y) && #[trigger] f(x) == #[trigger] f(y) implies x == y by {
            lemma_numbered_injective(base, count_from(k0, x) as nat, count_from(k0, y) as nat);
        }
    }
    let img = range.map(f);
    vstd::set_lib::lemma_map_size(range, img, f);
    assert(img.subset_of(list.to_set())) by {
        assert forall|x: Seq<char>| img.contains(x) implies list.to_set().contains(x) by {
            let t = choose|t: int| range.contains(t) && f(t) == x;
            assert(list.contains(numbered(base, count_from(k0, t) as nat)));
        }
    }
    list.lemma_cardinality_of_set();
    vstd::seq_lib::seq_to_set_is_finite(list);
    vstd::set_lib::lemma_len_subset(img, list.to_set());
}

/// The first of `name`, `next_name(name)`, `next_name(next_name(name))`, ... that is not in
/// `name_list`.
#[verifier::rlimit(60)]
pub fn avoid_name_collision(name_list: Vec<&String>, name: &str) -> (r: String)
    requires
        name_list.len() < u32::MAX,
    ensures
        exists|k: nat| r@ == nth_name(name@, k) && forall|j: nat| j < k ==>
            name_views(name_list@).contains(#[trigger] nth_name(name@, j)),
        !name_views(name_list@).contains(r@),
{
    let ghost list = name_views(name_list@);
    let mut name_edit = String::from_str(name);
    let ghost mut it: nat = 0;
    let ghost mut b: Seq<char> = Seq::empty();
    let ghost mut k0: int = 0;
    loop
        invariant
            list == name_views(name_list@),
            name_list.len() < u32::MAX,
            it <= name_list.len() + 1,
            0 <= k0 < 0x1_0000_0000,
            name_edit@ == nth_name(name@, it),
            forall|j: nat| j < it ==> list.contains(#[trigger] nth_name(name@, j)),
            forall|t: nat| 1 <= t <= it ==> #[trigger] nth_name(name@, t) == numbered(b, count_from(k0, t - 1) as nat),
        decreases name_list.len() + 1 - it,
    {
        if !list_contains(&name_list, &name_edit) {
            return name_edit;
        }
        proof {
            if it >= 1 {
                assert forall|t: int| 0 <= t < it implies list.contains(#[trigger] numbered(b, count_from(k0, t) as nat)) by {
                    assert(nth_name(name@, (t + 1) as nat) == numbered(b, count_from(k0, t) as nat));
                    if t + 1 < it {
                        assert(list.contains(nth_name(name@, (t + 1) as nat)));
                    }
                }
                lemma_numbered_bound(list, b, k0, it as int);
            }
        }
        let ghost cur = name_edit@;
        let s: &str = name_edit.as_str();
        let len = s.unicode_len();
        let mut idx: usize = len;
        let mut found = false;
        while idx > 0 && !found
            invariant
                idx <= len,
                len == s@.len(),
                found ==> idx < len && s@[idx as int] == '_',
                !found ==> forall|j: int| idx <= j < len ==> s@[j] != '_',
                found ==> forall|j: int| idx < j < len ==> s@[j] != '_',
            decreases idx + (if found { 0int } else { 1int }),
        {
            if s.get_char(idx - 1) == '_' {
                found = true;
            }
            idx = idx - 1;
        }
        proof {
            if found {
                let i = choose|i: int| 0 <= i < s@.len() && s@[i] == '_' && forall|j: int| i < j < s@.len() ==> s@[j] != '_';
                assert(i == idx as int) by {
                    if i < idx {
                        assert(s@[idx as int] == '_');
                    } else if i > idx {
                        assert(s@[i] != '_');
                    }
                }
                assert(last_underscore(s@) == Some(idx as int));
            } else {
                assert(last_underscore(s@) is None);
            }
        }
        let ghost mut numv: Seq<char> = Seq::empty();
        let next = if found {
            let base = s.substring_char(0, idx);
            let num = s.substring_char(idx + 1, len);
            let nlen = num.unicode_len();
            let mut all = true;
            let mut j: usize = 0;
            while j < nlen && all
                invariant
                    j <= nlen,
                    nlen == num@.len(),
                    all == forall|t: int| 0 <= t < j ==> char_numeric(#[trigger] num@[t]),
                    forall|t: int| 0 <= t < j && '0' <= num@[t] <= '9' ==> char_numeric(#[trigger] num@[t]),
                    ascii_digits(num@) ==> all,
                decreases nlen - j,
            {
                all = char_is_numeric(num.get_char(j));
                j = j + 1;
            }
            proof {
                if !all {
                    let t = choose|t: int| 0 <= t < j && !char_numeric(#[trigger] num@[t]);
                    assert(!all_numeric(num@));
                } else {
                    assert(all_numeric(num@));
                }
                numv = num@;
                assert(ascii_digits(numv) ==> all_numeric(numv));
            }
            if all {
                match parse_u32(num) {
                    Some(n) => format_numbered(base, n.wrapping_add(1)),
                    None => format_numbered(base, 0),
                }
            } else {
                format_numbered(base, 0)
            }
        } else {
            format_numbered(s, 0)
        };
        proof {
            assert(next@ == next_name(cur));
            let it2 = it + 1;
            assert(nth_name(name@, it2) == next_name(nth_name(name@, it)));
            if it == 0 {
                lemma_next_is_numbered(cur);
                let (bb, kk) = choose|bb: Seq<char>, kk: u32| next_name(cur) == numbered(bb, kk as nat);
                b = bb;
                k0 = kk as int;
                assert(count_from(k0, 0) == k0);
            } else {
                assert(cur == numbered(b, count_from(k0, it - 1) as nat));
                let n = count_from(k0, it - 1) as u32;
                lemma_decimal(n as nat);
                let d = decimal_digits(n as nat);
                let bl = b.len() as int;
                assert(cur[bl] == '_');
                assert forall|jj: int| bl < jj < cur.len() implies cur[jj] != '_' by {
                    assert(cur[jj] == d[jj - bl - 1]);
                    assert('0' <= d[jj - bl - 1] <= '9');
                }
                assert(found) by {
                    if !found {
                        assert(cur[bl] != '_');
                    }
                }
                assert(idx as int == bl) by {
                    if idx < bl {
                        assert(cur[bl] != '_');
                    } else if idx > bl {
                        assert(cur[idx as int] == '_');
                    }
                }
                assert(numv =~= d);
                assert(all_numeric(d));
                lemma_next_numbered(b, n);
                assert(count_from(k0, it as int) == (if n == u32::MAX { 0 } else { n + 1 }));
            }
            it = it2;
        }
        name_edit = next;
    }
}

/// Whatever collides, the next name tried is a numbered name.
proof fn lemma_next_is_numbered(s: Seq<char>)
    ensures
        exists|b: Seq<char>, k: u32| next_name(s) == numbered(b, k as nat),
{
    match last_underscore(s) {
        None => {
            assert(next_name(s) == numbered(s, 0u32 as nat));
        },
        Some(i) => {
            let base = s.subrange(0, i);
            let num = s.subrange(i + 1, s.len() as int);
            if all_numeric(num) {
                match parsed_u32(num) {
                    Some(n) => {
                        let k = (if n == u32::MAX { 0 } else { n + 1 }) as u32;
                        assert(next_name(s) == numbered(base, k as nat));
                    },
                    None => {
                        assert(next_name(s) == numbered(base, 0u32 as nat));
                    },
                }
            } else {
                assert(next_name(s) == numbered(base, 0u32 as nat));
            }
        },
    }
}

/// Whether any of `names` equals `name`.
fn list_contains(names: &Vec<&String>, name: &String) -> (r: bool)
    ensures
        r == name_views(names@).contains(name@),
{
    let mut i: usize = 0;
    while i < names.len()
        invariant
            i <= names.len(),
            forall|j: int| 0 <= j < i ==> names@[j]@ != name@,
        decreases names.len() - i,
    {
        if *names[i] == *name {
            proof {
                assert(name_views(names@)[i as int] == name@);
            }
            return true;
        }
        i = i + 1;
    }
    proof {
        if name_views(names@).contains(name@) {
            let j = choose|j: int| 0 <= j < names@.len() && #[trigger] name_views(names@)[j] == name@;
            assert(names@[j]@ == name@);
        }
    }
    false
}

} // verus!
