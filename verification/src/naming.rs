//! Ids for new things and names for new files.

use crate::compose;
use crate::compose::{hex_number, number};
use crate::order;
use crate::quest;
use crate::quest::Chapter;
use crate::text;
use vstd::prelude::*;

verus! {

// ---------------------------------------------------------------------------
// Ids
// ---------------------------------------------------------------------------

/// The state behind a state.
pub open spec fn next_state(s: u64) -> u64 {
    let a = s ^ (s << 13);
    let b = a ^ (a >> 7);
    b ^ (b << 17)
}

/// The state `n` steps behind a state.
pub open spec fn state_after(s: u64, n: nat) -> u64
    decreases n,
{
    if n == 0 {
        s
    } else {
        next_state(state_after(s, (n - 1) as nat))
    }
}

/// The id of a state: its sixteen hexadecimal digits.
pub open spec fn id_of(s: u64) -> Seq<char> {
    compose::hexadecimal(s as nat, 16)
}

/// The `n`th id that a generator in this state gives, counted from one.
pub open spec fn nth_id(s: u64, n: nat) -> Seq<char> {
    id_of(state_after(s, n))
}

pub proof fn lemma_state_after_sum(s: u64, a: nat, b: nat)
    ensures
        state_after(state_after(s, a), b) == state_after(s, a + b),
    decreases b,
{
    if b > 0 {
        lemma_state_after_sum(s, a, (b - 1) as nat);
    }
}

/// A source of ids.
pub struct IdGenerator {
    pub state: u64,
}

impl IdGenerator {
    /// A generator that starts from the time and the number of the process.
    pub fn new(nanos: u64, process_id: u32) -> (r: IdGenerator)
        ensures
            r.state == nanos ^ (process_id as u64) ^ 0x9E37_79B9_7F4A_7C15u64,
    {
        IdGenerator { state: nanos ^ (process_id as u64) ^ 0x9E37_79B9_7F4A_7C15u64 }
    }

    /// The next id.
    pub fn next_id(&mut self) -> (r: String)
        ensures
            final(self).state == next_state(old(self).state),
            r@ == id_of(final(self).state),
    {
        let a: u64 = self.state ^ (self.state << 13);
        let b: u64 = a ^ (a >> 7);
        self.state = b ^ (b << 17);
        hex_number(self.state, 16)
    }
}

proof fn lemma_hexadecimal_injective(a: nat, b: nat, width: nat)
    requires
        compose::hexadecimal(a, width) == compose::hexadecimal(b, width),
        a < pow16(width),
        b < pow16(width),
    ensures
        a == b,
    decreases width,
{
    if width > 0 {
        let x = compose::hexadecimal(a / 16, (width - 1) as nat);
        let y = compose::hexadecimal(b / 16, (width - 1) as nat);
        let p = text::hex_digit((a % 16) as int);
        let q = text::hex_digit((b % 16) as int);
        assert(x.push(p).drop_last() =~= x && y.push(q).drop_last() =~= y);
        assert(x.push(p).last() == p && y.push(q).last() == q);
        assert(a % 16 == b % 16);
        lemma_hexadecimal_injective(a / 16, b / 16, (width - 1) as nat);
    }
}

spec fn pow16(n: nat) -> nat
    decreases n,
{
    if n == 0 {
        1
    } else {
        16 * pow16((n - 1) as nat)
    }
}

proof fn lemma_left_13(a: u64, b: u64)
    requires
        a != b,
    ensures
        a ^ (a << 13) != b ^ (b << 13),
{
    let d = a ^ b;
    assert(a != b ==> a ^ b != 0) by (bit_vector);
    assert((a ^ (a << 13)) ^ (b ^ (b << 13)) == d ^ (d << 13)) by (bit_vector)
        requires
            d == a ^ b,
    ;
    assert(d != 0 ==> d ^ (d << 13) != 0) by (bit_vector);
    let x = a ^ (a << 13);
    let y = b ^ (b << 13);
    assert(x == y ==> x ^ y == 0) by (bit_vector);
}

proof fn lemma_right_7(a: u64, b: u64)
    requires
        a != b,
    ensures
        a ^ (a >> 7) != b ^ (b >> 7),
{
    let d = a ^ b;
    assert(a != b ==> a ^ b != 0) by (bit_vector);
    assert((a ^ (a >> 7)) ^ (b ^ (b >> 7)) == d ^ (d >> 7)) by (bit_vector)
        requires
            d == a ^ b,
    ;
    assert(d != 0 ==> d ^ (d >> 7) != 0) by (bit_vector);
    let x = a ^ (a >> 7);
    let y = b ^ (b >> 7);
    assert(x == y ==> x ^ y == 0) by (bit_vector);
}

proof fn lemma_left_17(a: u64, b: u64)
    requires
        a != b,
    ensures
        a ^ (a << 17) != b ^ (b << 17),
{
    let d = a ^ b;
    assert(a != b ==> a ^ b != 0) by (bit_vector);
    assert((a ^ (a << 17)) ^ (b ^ (b << 17)) == d ^ (d << 17)) by (bit_vector)
        requires
            d == a ^ b,
    ;
    assert(d != 0 ==> d ^ (d << 17) != 0) by (bit_vector);
    let x = a ^ (a << 17);
    let y = b ^ (b << 17);
    assert(x == y ==> x ^ y == 0) by (bit_vector);
}

/// Ids differ where the states differ, and different states go on to different states.
pub proof fn law_different_states_give_different_ids(a: u64, b: u64)
    requires
        a != b,
    ensures
        id_of(a) != id_of(b),
        next_state(a) != next_state(b),
{
    if id_of(a) == id_of(b) {
        reveal_with_fuel(pow16, 17);
        assert(pow16(16) == 0x1_0000_0000_0000_0000);
        lemma_hexadecimal_injective(a as nat, b as nat, 16);
    }
    let a1 = a ^ (a << 13);
    let b1 = b ^ (b << 13);
    lemma_left_13(a, b);
    let a2 = a1 ^ (a1 >> 7);
    let b2 = b1 ^ (b1 >> 7);
    lemma_right_7(a1, b1);
    lemma_left_17(a2, b2);
}

// ---------------------------------------------------------------------------
// File names
// ---------------------------------------------------------------------------

/// The ASCII letters and digits of a text in small letters, with an underscore for what stands
/// between them.
pub open spec fn slug_chars(s: Seq<char>) -> Seq<char>
    decreases s.len(),
{
    if s.len() == 0 {
        Seq::empty()
    } else {
        let front = slug_chars(s.drop_last());
        let c = s.last();
        if text::ascii_alphanumeric(c) {
            front.push(text::ascii_lower(c))
        } else if front.len() > 0 && front.last() != '_' {
            front.push('_')
        } else {
            front
        }
    }
}

/// A file name for a title.
pub open spec fn slug(s: Seq<char>) -> Seq<char> {
    let all = slug_chars(s);
    let cut = if all.len() > 0 && all.last() == '_' {
        all.drop_last()
    } else {
        all
    };
    if cut.len() == 0 {
        "main"@
    } else {
        cut
    }
}

/// A file name for a title.
pub fn slugify(value: &str) -> (r: String)
    ensures
        r@ == slug(value@),
{
    let s = text::chars_of(value);
    let mut chars: Vec<char> = Vec::new();
    let mut i: usize = 0;
    assert(s@.take(0) =~= Seq::empty());
    while i < s.len()
        invariant
            i <= s@.len(),
            s@ == value@,
            chars@ == slug_chars(s@.take(i as int)),
        decreases s@.len() - i,
    {
        let c = s[i];
        assert(s@.take(i + 1).drop_last() =~= s@.take(i as int));
        if text::is_ascii_alphanumeric(c) {
            chars.push(text::to_ascii_lower(c));
        } else if chars.len() > 0 && chars[chars.len() - 1] != '_' {
            chars.push('_');
        }
        i += 1;
    }
    assert(s@.take(i as int) =~= s@);
    if chars.len() > 0 && chars[chars.len() - 1] == '_' {
        let ghost all = chars@;
        chars.pop();
        assert(chars@ =~= all.drop_last());
    }
    if chars.len() == 0 {
        "main".to_owned()
    } else {
        text::string_of(&chars)
    }
}

/// A character of a file name: a small ASCII letter, a digit or an underscore.
pub open spec fn is_name_char(c: char) -> bool {
    text::ascii_digit(c) || 'a' <= c <= 'z' || c == '_'
}

proof fn lemma_slug_chars(s: Seq<char>)
    ensures
        forall|i: int|
            0 <= i < slug_chars(s).len() ==> is_name_char(#[trigger] slug_chars(s)[i]),
        slug_chars(s).len() > 0 ==> slug_chars(s)[0] != '_',
        forall|i: int|
            #![trigger slug_chars(s)[i]]
            0 < i < slug_chars(s).len() && slug_chars(s)[i] == '_' ==> slug_chars(s)[i - 1] != '_',
    decreases s.len(),
{
    if s.len() > 0 {
        let front = slug_chars(s.drop_last());
        lemma_slug_chars(s.drop_last());
        let c = s.last();
        if text::ascii_alphanumeric(c) {
            assert(is_name_char(text::ascii_lower(c)) && text::ascii_lower(c) != '_');
        }
        assert forall|i: int| 0 < i < slug_chars(s).len() && #[trigger] slug_chars(s)[i]
            == '_' implies slug_chars(s)[i - 1] != '_' by {
            assert(slug_chars(s)[i - 1] == front[i - 1]);
            if i < front.len() {
                assert(slug_chars(s)[i] == front[i]);
            }
        }
    }
}

/// A file name for a title is never empty. It holds small ASCII letters, digits and underscores
/// only, neither starts nor ends with an underscore, and has no two of them in a row.
pub proof fn law_slug_is_a_file_name(title: Seq<char>)
    ensures
        slug(title).len() > 0,
        forall|i: int| 0 <= i < slug(title).len() ==> is_name_char(#[trigger] slug(title)[i]),
        slug(title)[0] != '_',
        slug(title).last() != '_',
        forall|i: int|
            #![trigger slug(title)[i]]
            0 < i < slug(title).len() && slug(title)[i] == '_' ==> slug(title)[i - 1] != '_',
{
    reveal_strlit("main");
    let all = slug_chars(title);
    lemma_slug_chars(title);
    let r = slug(title);
    assert("main"@ =~= seq!['m', 'a', 'i', 'n']);
    if r != "main"@ {
        assert forall|i: int| 0 <= i < r.len() implies r[i] == #[trigger] all[i] by {}
        if all.last() == '_' {
            assert(all[all.len() - 1] == '_');
            assert(r.last() == all[all.len() - 2]);
        }
        assert forall|i: int| 0 < i < r.len() && #[trigger] r[i] == '_' implies r[i - 1] != '_' by {
            assert(all[i] == '_');
            assert(all[i - 1] != '_');
        }
    }
}

/// The `k`th name that is tried for a file: the name itself, then with a number behind it.
pub open spec fn candidate(base: Seq<char>, k: nat) -> Seq<char> {
    if k <= 1 {
        base
    } else {
        base + "_"@ + compose::decimal(k)
    }
}

/// A chapter has that file name.
pub open spec fn is_taken(chapters: Seq<quest::ChapterModel>, name: Seq<char>) -> bool {
    exists|i: int| 0 <= i < chapters.len() && (#[trigger] chapters[i]).filename == name
}

/// The number of the first name that is free.
pub open spec fn is_first_free(
    chapters: Seq<quest::ChapterModel>,
    base: Seq<char>,
    k: nat,
) -> bool {
    &&& k >= 1
    &&& !is_taken(chapters, candidate(base, k))
    &&& forall|j: nat| 1 <= j < k ==> is_taken(chapters, #[trigger] candidate(base, j))
}

pub proof fn lemma_decimal_injective(a: nat, b: nat)
    requires
        compose::decimal(a) == compose::decimal(b),
    ensures
        a == b,
    decreases a,
{
    let x = compose::decimal(a);
    let y = compose::decimal(b);
    let p = ('0' as int + a % 10) as char;
    let q = ('0' as int + b % 10) as char;
    assert(x.last() == p && y.last() == q);
    assert(a % 10 == b % 10);
    if a >= 10 {
        crate::layout_laws::lemma_decimal_chars(a / 10);
        assert(x.drop_last() =~= compose::decimal(a / 10));
        assert(b >= 10);
        assert(y.drop_last() =~= compose::decimal(b / 10));
        lemma_decimal_injective(a / 10, b / 10);
    } else if b >= 10 {
        crate::layout_laws::lemma_decimal_chars(b / 10);
        assert(y.len() == compose::decimal(b / 10).len() + 1);
    }
}

proof fn lemma_candidates_differ(base: Seq<char>, j: nat, k: nat)
    requires
        1 <= j < k,
    ensures
        candidate(base, j) != candidate(base, k),
{
    reveal_strlit("_");
    let y = candidate(base, k);
    if j == 1 {
        assert(y.len() > base.len());
    } else if candidate(base, j) == y {
        let x = candidate(base, j);
        let n = base.len() as int + 1;
        assert(x.skip(n) =~= compose::decimal(j));
        assert(y.skip(n) =~= compose::decimal(k));
        lemma_decimal_injective(j, k);
    }
}

/// Of different names not more can be among names than there are.
pub proof fn lemma_names_run_out(
    names: Seq<Seq<char>>,
    tried: spec_fn(nat) -> Seq<char>,
    m: nat,
)
    requires
        forall|j: nat| 1 <= j <= m ==> names.contains(#[trigger] tried(j)),
        forall|j: nat, k: nat| 1 <= j < k <= m ==> #[trigger] tried(j) != #[trigger] tried(k),
    ensures
        m <= names.len(),
{
    let owners = Seq::new(m, |j: int| names.index_of(tried((j + 1) as nat)));
    assert forall|j: int| 0 <= j < m implies 0 <= #[trigger] owners[j] < names.len()
        && names[owners[j]] == tried((j + 1) as nat) by {
        assert(names.contains(tried((j + 1) as nat)));
    }
    assert(owners.no_duplicates()) by {
        assert forall|a: int, b: int|
            0 <= a < owners.len() && 0 <= b < owners.len() && a != b implies owners[a]
            != owners[b] by {
            if a < b {
                assert(tried((a + 1) as nat) != tried((b + 1) as nat));
            } else {
                assert(tried((b + 1) as nat) != tried((a + 1) as nat));
            }
        }
    }
    owners.unique_seq_to_set();
    let range = vstd::set_lib::set_int_range(0, names.len() as int);
    vstd::set_lib::lemma_int_range(0, names.len() as int);
    assert forall|v: int| owners.to_set().contains(v) implies range.contains(v) by {
        let j = choose|j: int| 0 <= j < owners.len() && owners[j] == v;
        assert(0 <= owners[j] < names.len());
    }
    vstd::set_lib::lemma_len_subset(owners.to_set(), range);
}

/// Not more names can be taken than there are chapters.
proof fn lemma_taken_bound(chapters: Seq<quest::ChapterModel>, base: Seq<char>, m: nat)
    requires
        forall|j: nat| 1 <= j <= m ==> is_taken(chapters, #[trigger] candidate(base, j)),
    ensures
        m <= chapters.len(),
{
    let names = Seq::new(chapters.len(), |i: int| chapters[i].filename);
    let tried = |k: nat| candidate(base, k);
    assert forall|j: nat| 1 <= j <= m implies names.contains(#[trigger] tried(j)) by {
        assert(is_taken(chapters, candidate(base, j)));
        let i = choose|i: int|
            0 <= i < chapters.len() && (#[trigger] chapters[i]).filename == candidate(base, j);
        assert(names[i] == tried(j));
    }
    assert forall|j: nat, k: nat| 1 <= j < k <= m implies #[trigger] tried(j)
        != #[trigger] tried(k) by {
        lemma_candidates_differ(base, j, k);
    }
    lemma_names_run_out(names, tried, m);
}

fn is_filename_taken(chapters: &Vec<Chapter>, name: &str) -> (r: bool)
    ensures
        r == is_taken(order::views(chapters@), name@),
{
    let ghost all = order::views(chapters@);
    let mut i: usize = 0;
    while i < chapters.len()
        invariant
            i <= chapters@.len(),
            all == order::views(chapters@),
            forall|j: int| 0 <= j < i ==> (#[trigger] all[j]).filename != name@,
        decreases chapters@.len() - i,
    {
        assert(all[i as int].filename == chapters@[i as int].filename@);
        if text::same(chapters[i].filename.as_str(), name) {
            return true;
        }
        i += 1;
    }
    false
}

/// The first name for a file that no chapter has.
pub fn unique_chapter_filename(chapters: &Vec<Chapter>, base: &str) -> (r: String)
    ensures
        exists|k: nat|
            is_first_free(order::views(chapters@), base@, k) && r@ == #[trigger] candidate(
                base@,
                k,
            ),
{
    let ghost all = order::views(chapters@);
    if !is_filename_taken(chapters, base) {
        assert(candidate(base@, 1) == base@);
        assert(is_first_free(all, base@, 1));
        return base.to_owned();
    }
    let n: u128 = chapters.len() as u128;
    let mut k: u128 = 1;
    proof {
        assert(candidate(base@, 1) == base@);
        lemma_taken_bound(all, base@, 1);
    }
    loop
        invariant
            all == order::views(chapters@),
            1 <= k <= n == all.len(),
            n <= usize::MAX,
            forall|j: nat| 1 <= j <= k ==> is_taken(all, #[trigger] candidate(base@, j)),
        decreases n - k,
    {
        let mut name = base.to_owned();
        name.append("_");
        name.append(number(k + 1).as_str());
        assert(name@ =~= candidate(base@, (k + 1) as nat));
        if !is_filename_taken(chapters, name.as_str()) {
            assert(is_first_free(all, base@, (k + 1) as nat));
            return name;
        }
        proof {
            lemma_taken_bound(all, base@, (k + 1) as nat);
        }
        k += 1;
    }
}

} // verus!
