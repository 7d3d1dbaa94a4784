//! Free-form key/value configuration with parse-or-default reads.
//!
//! Settings are stored as text and parsed on every read; a missing or
//! unreadable entry silently falls back to its documented default
//! instead of failing the caller.

use vstd::prelude::*;
use vstd::string::*;

verus! {

/// The retention bound used when none is configured.
pub const DEFAULT_MAX_COUNT: u64 = 1000;

/// The lookback window, in seconds, used when none is configured.
pub const DEFAULT_DURATION_SECONDS: u64 = 86400;

/// A configuration key.
#[derive(Debug, PartialEq, Eq, PartialOrd, Ord, Hash)]
pub struct Key {
    pub id: String,
}

impl Clone for Key {
    fn clone(&self) -> (r: Self)
        ensures
            r == *self,
    {
        Key { id: self.id.clone() }
    }
}

impl From<String> for Key {
    fn from(id: String) -> (r: Key)
        ensures
            r == (Key { id }),
    {
        Key { id }
    }
}

impl vstd::std_specs::convert::FromSpecImpl<String> for Key {
    open spec fn obeys_from_spec() -> bool {
        true
    }

    open spec fn from_spec(id: String) -> Key {
        Key { id }
    }
}

/// A configuration value: free-form text, parsed on read.
#[derive(Debug, PartialEq, Eq, PartialOrd, Ord, Hash)]
pub struct Value {
    pub value: String,
}

impl Clone for Value {
    fn clone(&self) -> (r: Self)
        ensures
            r == *self,
    {
        Value { value: self.value.clone() }
    }
}

/// The canonical decimal digit for a value below ten.
pub open spec fn dec_char(d: int) -> char {
    if d == 0 { '0' } else if d == 1 { '1' } else if d == 2 { '2' }
    else if d == 3 { '3' } else if d == 4 { '4' } else if d == 5 { '5' }
    else if d == 6 { '6' } else if d == 7 { '7' } else if d == 8 { '8' }
    else { '9' }
}

/// The value of a decimal digit, or -1 for any other character.
pub open spec fn dec_value_of(c: char) -> int {
    let x = c as int;
    if 48 <= x <= 57 {
        x - 48
    } else {
        -1
    }
}

/// The canonical decimal text of a number, without sign or padding.
pub open spec fn u64_dec_seq(n: nat) -> Seq<char>
    decreases n,
{
    if n < 10 {
        seq![dec_char(n as int)]
    } else {
        u64_dec_seq(n / 10).push(dec_char((n % 10) as int))
    }
}

/// The number read from a digit sequence, most significant first.
pub open spec fn dec_seq_value(s: Seq<char>) -> int
    decreases s.len(),
{
    if s.len() == 0 {
        0
    } else {
        10 * dec_seq_value(s.drop_last()) + dec_value_of(s.last())
    }
}

/// Every character is a decimal digit.
pub open spec fn all_dec_digits(s: Seq<char>) -> bool {
    forall|i: int| 0 <= i < s.len() ==> dec_value_of(#[trigger] s[i]) >= 0
}

/// The digit part of a number's text: everything, or everything after
/// one leading plus sign.
pub open spec fn dec_digits_part(s: Seq<char>) -> Seq<char> {
    if s.len() > 0 && s[0] == '+' {
        s.skip(1)
    } else {
        s
    }
}

/// The texts that read as a 64-bit number: at least one digit after an
/// optional plus sign, and a value that fits.
pub open spec fn is_u64_text(s: Seq<char>) -> bool {
    let d = dec_digits_part(s);
    &&& d.len() >= 1
    &&& all_dec_digits(d)
    &&& dec_seq_value(d) < 0x1_0000_0000_0000_0000
}

/// The number carried by a well-formed text.
pub open spec fn u64_text_value(s: Seq<char>) -> int {
    dec_seq_value(dec_digits_part(s))
}

/// What a read of one optional text setting comes to: the parsed
/// number, or the default wherever the entry is missing or unreadable.
pub open spec fn parse_or_default(v: Option<Seq<char>>, default: u64) -> u64 {
    match v {
        Option::None => default,
        Option::Some(t) => if is_u64_text(t) {
            u64_text_value(t) as u64
        } else {
            default
        },
    }
}

/// Compare two string slices character by character.
pub fn str_eq(a: &str, b: &str) -> (r: bool)
    ensures
        r <==> a@ == b@,
{
    let na = a.unicode_len();
    let nb = b.unicode_len();
    if na != nb {
        return false;
    }
    let mut i: usize = 0;
    while i < na
        invariant
            0 <= i <= na,
            na == a@.len(),
            na == b@.len(),
            forall|j: int| 0 <= j < i ==> a@[j] == b@[j],
        decreases na - i,
    {
        if a.get_char(i) != b.get_char(i) {
            return false;
        }
        i = i + 1;
    }
    proof {
        assert(a@ =~= b@);
    }
    true
}

/// A one-character string slice holding a given decimal digit.
fn dec_str_of(d: u8) -> (r: &'static str)
    requires
        d < 10,
    ensures
        r@ == seq![dec_char(d as int)],
{
    proof {
        reveal_strlit("0");
        reveal_strlit("1");
        reveal_strlit("2");
        reveal_strlit("3");
        reveal_strlit("4");
        reveal_strlit("5");
        reveal_strlit("6");
        reveal_strlit("7");
        reveal_strlit("8");
        reveal_strlit("9");
    }
    match d {
        0 => "0", 1 => "1", 2 => "2", 3 => "3", 4 => "4",
        5 => "5", 6 => "6", 7 => "7", 8 => "8", _ => "9",
    }
}

/// The value of a decimal digit, as executable code.
fn dec_digit_of(c: char) -> (r: Option<u8>)
    ensures
        r is Some <==> dec_value_of(c) >= 0,
        r matches Some(d) ==> d == dec_value_of(c) && d < 10,
{
    let x = c as u32;
    if 48 <= x && x <= 57 {
        Some((x - 48) as u8)
    } else {
        None
    }
}

/// The canonical text is digits only, starts with no sign, and reads
/// back to the number it was written from.
pub proof fn lemma_dec_round_trip(n: nat)
    ensures
        u64_dec_seq(n).len() >= 1,
        all_dec_digits(u64_dec_seq(n)),
        dec_value_of(u64_dec_seq(n)[0]) >= 0,
        dec_seq_value(u64_dec_seq(n)) == n,
    decreases n,
{
    let s = u64_dec_seq(n);
    if n < 10 {
        assert(s =~= Seq::<char>::empty().push(dec_char(n as int)));
        assert(s.drop_last().len() == 0);
        assert(dec_seq_value(s.drop_last()) == 0);
        assert(s.last() == dec_char(n as int));
        assert(dec_seq_value(s) == dec_value_of(dec_char(n as int)));
    } else {
        lemma_dec_round_trip(n / 10);
        let t = u64_dec_seq(n / 10);
        assert(s == t.push(dec_char((n % 10) as int)));
        assert(s.drop_last() =~= t);
        assert(s.last() == dec_char((n % 10) as int));
        assert(dec_value_of(s.last()) == n % 10);
        assert(dec_seq_value(s) == 10 * (n / 10) + n % 10);
        assert(s[0] == t[0]);
        assert forall|i: int| 0 <= i < s.len() implies dec_value_of(#[trigger] s[i]) >= 0 by {
            if i < s.len() - 1 {
                assert(s[i] == t[i]);
            }
        }
    }
}

/// Write a number as its canonical decimal text.
pub fn u64_to_string(n: u64) -> (r: String)
    ensures
        r@ == u64_dec_seq(n as nat),
    decreases n,
{
    if n < 10 {
        dec_str_of(n as u8).to_owned()
    } else {
        let mut s = u64_to_string(n / 10);
        s.append(dec_str_of((n % 10) as u8));
        proof {
            assert(u64_dec_seq((n / 10) as nat) + seq![dec_char((n % 10) as int)] =~= u64_dec_seq(
                n as nat,
            ));
        }
        s
    }
}

/// Reading one more digit multiplies the prefix value by ten and adds
/// the digit.
proof fn lemma_dec_take_step(s: Seq<char>, i: int)
    requires
        0 <= i < s.len(),
    ensures
        dec_seq_value(s.take(i + 1)) == 10 * dec_seq_value(s.take(i)) + dec_value_of(s[i]),
{
    assert(s.take(i + 1).drop_last() =~= s.take(i));
    assert(s.take(i + 1).last() == s[i]);
}

/// A digit sequence reads as a non-negative number.
proof fn lemma_dec_nonneg(s: Seq<char>)
    requires
        all_dec_digits(s),
    ensures
        dec_seq_value(s) >= 0,
    decreases s.len(),
{
    if s.len() > 0 {
        assert(forall|i: int|
            0 <= i < s.drop_last().len() ==> dec_value_of(#[trigger] s.drop_last()[i]) >= 0);
        lemma_dec_nonneg(s.drop_last());
    }
}

/// A digit sequence reads as a number never smaller than any prefix.
proof fn lemma_dec_prefix_le(s: Seq<char>, i: int)
    requires
        all_dec_digits(s),
        0 <= i <= s.len(),
    ensures
        0 <= dec_seq_value(s.take(i)) <= dec_seq_value(s),
    decreases s.len() - i,
{
    assert(forall|j: int| 0 <= j < s.take(i).len() ==> dec_value_of(#[trigger] s.take(i)[j]) >= 0);
    lemma_dec_nonneg(s.take(i));
    if i == s.len() {
        assert(s.take(i) =~= s);
    } else {
        lemma_dec_take_step(s, i);
        lemma_dec_prefix_le(s, i + 1);
    }
}

/// Read a number from text the way the configuration store does:
/// an optional plus sign, then decimal digits that fit in 64 bits.
pub fn parse_u64(s: &str) -> (r: Option<u64>)
    ensures
        r is Some <==> is_u64_text(s@),
        r matches Some(n) ==> n as int == u64_text_value(s@),
{
    let len = s.unicode_len();
    if len == 0 {
        return None;
    }
    let first = s.get_char(0);
    let start: usize = if first == '+' {
        1
    } else {
        0
    };
    let ghost d = dec_digits_part(s@);
    proof {
        if start == 1 {
            assert(d =~= s@.skip(1));
        } else {
            assert(d =~= s@);
        }
        assert(d.len() == len - start);
    }
    if len == start {
        return None;
    }
    let mut acc: u64 = 0;
    let mut i: usize = start;
    while i < len
        invariant
            start <= i <= len,
            len == s@.len(),
            start == 0 || start == 1,
            d == dec_digits_part(s@),
            d.len() == len - start,
            forall|j: int| start <= j < i ==> d[j - start] == s@[j],
            all_dec_digits(d.take((i - start) as int)),
            acc as int == dec_seq_value(d.take((i - start) as int)),
        decreases len - i,
    {
        let c = s.get_char(i);
        proof {
            if start == 1 {
                assert(d[i - start] == s@.skip(1)[i - 1]);
            }
            assert(d[i - start] == s@[i as int]);
        }
        let dv = match dec_digit_of(c) {
            Some(dv) => dv,
            None => {
                proof {
                    assert(dec_value_of(d[i - start]) < 0);
                }
                return None;
            },
        };
        proof {
            lemma_dec_take_step(d, (i - start) as int);
            assert(d.take((i - start) + 1) =~= d.take((i - start) as int).push(d[i - start]));
        }
        if acc > (u64::MAX - (dv as u64)) / 10 {
            proof {
                assert(10 * (acc as int) + dv > u64::MAX);
                if all_dec_digits(d) {
                    lemma_dec_prefix_le(d, (i - start) + 1);
                    assert(dec_seq_value(d) >= 10 * (acc as int) + dv);
                }
            }
            return None;
        }
        acc = acc * 10 + (dv as u64);
        i = i + 1;
    }
    proof {
        assert(d.take(d.len() as int) =~= d);
    }
    Some(acc)
}

/// The keyed configuration store.
pub struct ConfigStore {
    pub entries: Vec<(Key, Value)>,
}

impl View for ConfigStore {
    type V = Seq<(Key, Value)>;

    open spec fn view(&self) -> Seq<(Key, Value)> {
        self.entries@
    }
}

/// The text stored under a key, if the key is present.
pub open spec fn cfg_get(s: Seq<(Key, Value)>, k: Seq<char>) -> Option<Seq<char>> {
    if exists|i: int| 0 <= i < s.len() && (#[trigger] s[i]).0.id@ == k {
        let i = choose|i: int| 0 <= i < s.len() && (#[trigger] s[i]).0.id@ == k;
        Some(s[i].1.value@)
    } else {
        None
    }
}

/// The configured retention bound, read parse-or-default.
pub open spec fn spec_max_count(s: Seq<(Key, Value)>) -> u64 {
    parse_or_default(cfg_get(s, "max_count"@), DEFAULT_MAX_COUNT)
}

/// The configured lookback window in seconds, read parse-or-default.
pub open spec fn spec_duration_seconds(s: Seq<(Key, Value)>) -> u64 {
    parse_or_default(cfg_get(s, "duration_seconds"@), DEFAULT_DURATION_SECONDS)
}

impl ConfigStore {
    /// Keys are stored at most once.
    pub open spec fn wf(&self) -> bool {
        forall|i: int, j: int|
            0 <= i < j < self@.len() ==> (#[trigger] self@[i]).0.id@ != (#[trigger] self@[j]).0.id@
    }

    /// An empty configuration: every setting reads as its default.
    pub fn new() -> (s: Self)
        ensures
            s.wf(),
            s@.len() == 0,
    {
        ConfigStore { entries: Vec::new() }
    }

    /// The entry stored under a name, if any.
    pub fn get(&self, name: &str) -> (r: Option<&Value>)
        requires
            self.wf(),
        ensures
            r matches Some(v) ==> cfg_get(self@, name@) == Some(v.value@),
            r is None ==> cfg_get(self@, name@) is None,
    {
        let n = self.entries.len();
        let mut i: usize = 0;
        while i < n
            invariant
                self.wf(),
                n == self@.len(),
                0 <= i <= n,
                forall|j: int| 0 <= j < i ==> (#[trigger] self@[j]).0.id@ != name@,
            decreases n - i,
        {
            let e = &self.entries[i];
            if str_eq(e.0.id.as_str(), name) {
                proof {
                    let w = choose|w: int|
                        0 <= w < self@.len() && (#[trigger] self@[w]).0.id@ == name@;
                    if w != i {
                        assert((self@[w]).0.id@ != (self@[i as int]).0.id@);
                    }
                }
                return Some(&e.1);
            }
            i = i + 1;
        }
        None
    }

    /// Store text under a name, replacing what was there.  Every other
    /// setting reads as before.
    pub fn set(&mut self, name: &str, text: String)
        requires
            old(self).wf(),
        ensures
            final(self).wf(),
            cfg_get(final(self)@, name@) == Some(text@),
            forall|k: Seq<char>| k != name@ ==> cfg_get(final(self)@, k) == cfg_get(old(self)@, k),
    {
        let n = self.entries.len();
        let mut i: usize = 0;
        while i < n
            invariant
                self.wf(),
                self@ == old(self)@,
                n == self@.len(),
                0 <= i <= n,
                forall|j: int| 0 <= j < i ==> (#[trigger] self@[j]).0.id@ != name@,
            decreases n - i,
        {
            let found = str_eq(self.entries[i].0.id.as_str(), name);
            if found {
                let e = self.entries.remove(i);
                self.entries.insert(i, (e.0, Value { value: text }));
                proof {
                    let s_new = self@;
                    let s_old = old(self)@;
                    assert(s_new =~= s_old.update(i as int, (s_old[i as int].0, Value { value: text })));
                    assert forall|j: int| 0 <= j < s_new.len() implies (#[trigger] s_new[j]).0
                        == s_old[j].0 by {
                        if j != i {
                            assert(s_new[j] == s_old[j]);
                        }
                    }
                    lemma_cfg_get_update(s_old, s_new, i as int, name@);
                }
                return ;
            }
            i = i + 1;
        }
        let key_text = name.to_owned();
        let ghost gk = key_text;
        let ghost gv = text;
        self.entries.push((Key { id: key_text }, Value { value: text }));
        proof {
            let s_new = self@;
            let s_old = old(self)@;
            assert(s_new =~= s_old.push((Key { id: gk }, Value { value: gv })));
            lemma_cfg_get_push(s_old, s_new, name@);
        }
    }

    /// The retention bound: the configured number, or the default
    /// where none is stored or the text does not read as a number.
    pub fn max_count(&self) -> (r: u64)
        requires
            self.wf(),
        ensures
            r == spec_max_count(self@),
    {
        match self.get("max_count") {
            Some(v) => match parse_u64(v.value.as_str()) {
                Some(n) => n,
                None => DEFAULT_MAX_COUNT,
            },
            None => DEFAULT_MAX_COUNT,
        }
    }

    /// The lookback window in seconds: the configured number, or the
    /// default where none is stored or the text does not read as one.
    pub fn duration_seconds(&self) -> (r: u64)
        requires
            self.wf(),
        ensures
            r == spec_duration_seconds(self@),
    {
        match self.get("duration_seconds") {
            Some(v) => match parse_u64(v.value.as_str()) {
                Some(n) => n,
                None => DEFAULT_DURATION_SECONDS,
            },
            None => DEFAULT_DURATION_SECONDS,
        }
    }

    /// Store a new retention bound; the lookback window is untouched.
    pub fn update_max_count(&mut self, count: u64)
        requires
            old(self).wf(),
        ensures
            final(self).wf(),
            spec_max_count(final(self)@) == count,
            spec_duration_seconds(final(self)@) == spec_duration_seconds(old(self)@),
    {
        let text = u64_to_string(count);
        self.set("max_count", text);
        proof {
            lemma_dec_round_trip(count as nat);
            lemma_config_names_differ();
        }
    }

    /// Store a new lookback window; the retention bound is untouched.
    pub fn update_duration_seconds(&mut self, duration_seconds: u64)
        requires
            old(self).wf(),
        ensures
            final(self).wf(),
            spec_duration_seconds(final(self)@) == duration_seconds,
            spec_max_count(final(self)@) == spec_max_count(old(self)@),
    {
        let text = u64_to_string(duration_seconds);
        self.set("duration_seconds", text);
        proof {
            lemma_dec_round_trip(duration_seconds as nat);
            lemma_config_names_differ();
        }
    }
}

/// The two setting names are different texts.
proof fn lemma_config_names_differ()
    ensures
        "max_count"@ != "duration_seconds"@,
{
    reveal_strlit("max_count");
    reveal_strlit("duration_seconds");
    assert("max_count"@.len() != "duration_seconds"@.len());
}

/// Replacing the text under one key changes no other key's read.
proof fn lemma_cfg_get_update(s_old: Seq<(Key, Value)>, s_new: Seq<(Key, Value)>, at: int, name: Seq<char>)
    requires
        0 <= at < s_old.len(),
        s_new.len() == s_old.len(),
        s_old[at].0.id@ == name,
        forall|j: int| 0 <= j < s_new.len() ==> (#[trigger] s_new[j]).0 == s_old[j].0,
        forall|j: int| 0 <= j < s_new.len() && j != at ==> #[trigger] s_new[j] == s_old[j],
        forall|i: int, j: int|
            0 <= i < j < s_old.len() ==> (#[trigger] s_old[i]).0.id@ != (#[trigger] s_old[j]).0.id@,
    ensures
        cfg_get(s_new, name) == Some(s_new[at].1.value@),
        forall|k: Seq<char>| k != name ==> cfg_get(s_new, k) == cfg_get(s_old, k),
{
    assert(s_new[at].0.id@ == name);
    let w = choose|w: int| 0 <= w < s_new.len() && (#[trigger] s_new[w]).0.id@ == name;
    if w != at {
        assert((s_old[w]).0.id@ != (s_old[at]).0.id@);
    }
    assert forall|k: Seq<char>| k != name implies cfg_get(s_new, k) == cfg_get(s_old, k) by {
        if exists|i: int| 0 <= i < s_old.len() && (#[trigger] s_old[i]).0.id@ == k {
            let i = choose|i: int| 0 <= i < s_old.len() && (#[trigger] s_old[i]).0.id@ == k;
            assert(s_new[i].0.id@ == k);
            let j = choose|j: int| 0 <= j < s_new.len() && (#[trigger] s_new[j]).0.id@ == k;
            if j != i {
                assert((s_old[i]).0.id@ != (s_old[j]).0.id@);
            }
            assert(i != at);
            assert(cfg_get(s_new, k) == Some(s_new[j].1.value@));
            assert(cfg_get(s_old, k) == Some(s_old[i].1.value@));
        } else {
            assert forall|i: int| 0 <= i < s_new.len() implies (#[trigger] s_new[i]).0.id@ != k by {
                assert(s_old[i].0.id@ != k);
            }
        }
    }
}

/// Adding a fresh key changes no other key's read.
proof fn lemma_cfg_get_push(s_old: Seq<(Key, Value)>, s_new: Seq<(Key, Value)>, name: Seq<char>)
    requires
        s_new.len() == s_old.len() + 1,
        forall|j: int| 0 <= j < s_old.len() ==> #[trigger] s_new[j] == s_old[j],
        s_new[s_old.len() as int].0.id@ == name,
        forall|j: int| 0 <= j < s_old.len() ==> (#[trigger] s_old[j]).0.id@ != name,
        forall|i: int, j: int|
            0 <= i < j < s_old.len() ==> (#[trigger] s_old[i]).0.id@ != (#[trigger] s_old[j]).0.id@,
    ensures
        forall|i: int, j: int|
            0 <= i < j < s_new.len() ==> (#[trigger] s_new[i]).0.id@ != (#[trigger] s_new[j]).0.id@,
        cfg_get(s_new, name) == Some(s_new[s_old.len() as int].1.value@),
        forall|k: Seq<char>| k != name ==> cfg_get(s_new, k) == cfg_get(s_old, k),
{
    let at = s_old.len() as int;
    assert forall|i: int, j: int| 0 <= i < j < s_new.len() implies (#[trigger] s_new[i]).0.id@ != (
    #[trigger] s_new[j]).0.id@ by {
        if j < at {
            assert(s_new[i] == s_old[i]);
            assert(s_new[j] == s_old[j]);
        } else {
            assert(s_new[i] == s_old[i]);
            assert(s_old[i].0.id@ != name);
        }
    }
    let w = choose|w: int| 0 <= w < s_new.len() && (#[trigger] s_new[w]).0.id@ == name;
    if w != at {
        assert(s_new[w] == s_old[w]);
    }
    assert forall|k: Seq<char>| k != name implies cfg_get(s_new, k) == cfg_get(s_old, k) by {
        if exists|i: int| 0 <= i < s_old.len() && (#[trigger] s_old[i]).0.id@ == k {
            let i = choose|i: int| 0 <= i < s_old.len() && (#[trigger] s_old[i]).0.id@ == k;
            assert(s_new[i].0.id@ == k);
            let j = choose|j: int| 0 <= j < s_new.len() && (#[trigger] s_new[j]).0.id@ == k;
            if j < at && j != i {
                assert((s_old[i]).0.id@ != (s_old[j]).0.id@);
            }
            assert(j != at);
            assert(cfg_get(s_new, k) == Some(s_new[j].1.value@));
        } else {
            if exists|i: int| 0 <= i < s_new.len() && (#[trigger] s_new[i]).0.id@ == k {
                let i = choose|i: int| 0 <= i < s_new.len() && (#[trigger] s_new[i]).0.id@ == k;
                assert(i == at);
            }
        }
    }
}

} // verus!
