//! Partition names and their fixed-width UTF-16LE field.
use vstd::prelude::*;
use vstd::string::*;

verus! {

/// Number of UTF-16 code units in the on-disk name field.
pub const NAME_UNITS: usize = 36;

/// The UTF-16 code units of one character.
pub open spec fn utf16_char(c: char) -> Seq<u16> {
    let v = c as u32;
    if v < 0x10000 {
        seq![v as u16]
    } else {
        let w = (v - 0x10000) as u32;
        seq![(0xD800 + w / 1024) as u16, (0xDC00 + w % 1024) as u16]
    }
}

/// The UTF-16 code units of a string.
pub open spec fn utf16_of(s: Seq<char>) -> Seq<u16>
    decreases s.len(),
{
    if s.len() == 0 {
        Seq::empty()
    } else {
        utf16_of(s.drop_last()) + utf16_char(s.last())
    }
}

/// `u` cut or padded with zero units to exactly `n` units.
pub open spec fn fit_units(u: Seq<u16>, n: nat) -> Seq<u16> {
    if u.len() >= n {
        u.take(n as int)
    } else {
        u + Seq::new((n - u.len()) as nat, |i: int| 0u16)
    }
}

/// The code units that a name is stored as: its UTF-16 code units cut to 35, then padded with
/// zero units to the field's 36.
pub open spec fn name_units(s: Seq<char>) -> Seq<u16> {
    fit_units(kept_units(s), NAME_UNITS as nat)
}

/// The code units of a name that are stored: at most 35, so that at least one zero unit ends
/// the name inside the field.
pub open spec fn kept_units(s: Seq<char>) -> Seq<u16> {
    let u = utf16_of(s);
    if u.len() > NAME_UNITS - 1 {
        u.take(NAME_UNITS - 1)
    } else {
        u
    }
}

/// The number of units before the first zero unit (all of them if there is none).
pub open spec fn nul_position(u: Seq<u16>) -> nat
    decreases u.len(),
{
    if u.len() == 0 {
        0
    } else if u[0] == 0 {
        0
    } else {
        1 + nul_position(u.drop_first())
    }
}

/// The units that are kept when a name field is read: those before the first zero unit.
pub open spec fn before_nul(u: Seq<u16>) -> Seq<u16> {
    u.take(nul_position(u) as int)
}

/// A code unit that is half of a surrogate pair.
pub open spec fn is_surrogate(u: u16) -> bool {
    0xD800 <= u <= 0xDFFF
}

/// A leading (high) surrogate.
pub open spec fn is_high_surrogate(u: u16) -> bool {
    0xD800 <= u <= 0xDBFF
}

/// A trailing (low) surrogate.
pub open spec fn is_low_surrogate(u: u16) -> bool {
    0xDC00 <= u <= 0xDFFF
}

/// `r` is the lossy UTF-16 decoding of `u`: a high surrogate followed by a low one gives the
/// character they encode, any other surrogate gives U+FFFD, and any other unit gives the
/// character with that code point.
pub open spec fn lossy_decodes(r: Seq<char>, u: Seq<u16>) -> bool
    decreases u.len(),
{
    if u.len() == 0 {
        r.len() == 0
    } else if u.len() >= 2 && is_high_surrogate(u[0]) && is_low_surrogate(u[1]) {
        &&& r.len() >= 1
        &&& (r[0] as u32) == 0x10000 + (u[0] - 0xD800) * 1024 + (u[1] - 0xDC00)
        &&& lossy_decodes(r.drop_first(), u.skip(2))
    } else if is_surrogate(u[0]) {
        &&& r.len() >= 1
        &&& (r[0] as u32) == 0xFFFD
        &&& lossy_decodes(r.drop_first(), u.drop_first())
    } else {
        &&& r.len() >= 1
        &&& (r[0] as u32) == u[0] as u32
        &&& lossy_decodes(r.drop_first(), u.drop_first())
    }
}

/// A character of the Basic Multilingual Plane other than U+0000.
pub open spec fn is_bmp_non_nul(c: char) -> bool {
    0 < (c as u32) < 0x10000
}

/// The name that a stored field of units decodes to: the lossy decoding of the units before the
/// first zero unit.
pub open spec fn decode_name(u: Seq<u16>) -> Seq<char> {
    choose|r: Seq<char>| lossy_decodes(r, before_nul(u))
}

/// Relies on `String::from_utf16_lossy`, which decodes UTF-16 and replaces each unpaired
/// surrogate by U+FFFD.
#[verifier::external_body]
fn utf16_lossy(units: &[u16]) -> (r: String)
    ensures
        lossy_decodes(r@, units@),
{
    String::from_utf16_lossy(units)
}

/// A sequence of units has at most one lossy decoding.
proof fn lemma_lossy_unique(r1: Seq<char>, r2: Seq<char>, u: Seq<u16>)
    requires
        lossy_decodes(r1, u),
        lossy_decodes(r2, u),
    ensures
        r1 == r2,
    decreases u.len(),
{
    if u.len() == 0 {
        assert(r1 =~= r2);
    } else {
        lemma_char_code(r1[0], r2[0]);
        if u.len() >= 2 && is_high_surrogate(u[0]) && is_low_surrogate(u[1]) {
            lemma_lossy_unique(r1.drop_first(), r2.drop_first(), u.skip(2));
        } else {
            lemma_lossy_unique(r1.drop_first(), r2.drop_first(), u.drop_first());
        }
        assert(r1 =~= seq![r1[0]] + r1.drop_first());
        assert(r2 =~= seq![r2[0]] + r2.drop_first());
    }
}

/// Units that are not surrogates decode each to the character with that code point.
proof fn lemma_plain_decodes(r: Seq<char>, u: Seq<u16>)
    requires
        r.len() == u.len(),
        forall|i: int| 0 <= i < u.len() ==> !is_surrogate(#[trigger] u[i]),
        forall|i: int| 0 <= i < u.len() ==> #[trigger] (r[i] as u32) == u[i] as u32,
    ensures
        lossy_decodes(r, u),
    decreases u.len(),
{
    if u.len() > 0 {
        assert(!is_surrogate(u[0]));
        assert((r[0] as u32) == u[0] as u32);
        let (r1, u1) = (r.drop_first(), u.drop_first());
        assert forall|i: int| 0 <= i < u1.len() implies !is_surrogate(#[trigger] u1[i]) by {
            assert(u1[i] == u[i + 1]);
        }
        assert forall|i: int| 0 <= i < u1.len() implies #[trigger] (r1[i] as u32) == u1[i] as u32 by {
            assert(u1[i] == u[i + 1]);
            assert(r1[i] == r[i + 1]);
        }
        lemma_plain_decodes(r1, u1);
    }
}

/// A partition's name.
#[derive(Debug, PartialEq, Eq)]
pub struct PartitionName(String);

impl View for PartitionName {
    type V = Seq<char>;

    closed spec fn view(&self) -> Seq<char> {
        self.0@
    }
}

impl Clone for PartitionName {
    fn clone(&self) -> (r: Self)
        ensures
            r@ == self@,
    {
        PartitionName(self.0.clone())
    }
}

impl From<&str> for PartitionName {
    fn from(value: &str) -> (r: PartitionName) {
        PartitionName(value.to_owned())
    }
}

impl vstd::std_specs::convert::FromSpecImpl<&str> for PartitionName {
    open spec fn obeys_from_spec() -> bool {
        false
    }

    open spec fn from_spec(v: &str) -> PartitionName {
        arbitrary()
    }
}

impl PartitionName {
    /// A name holding the characters of `value`.
    pub fn new(value: &str) -> (r: PartitionName)
        ensures
            r@ == value@,
    {
        PartitionName(value.to_owned())
    }

    /// Extracts a string slice containing the entire name.
    pub fn as_str(&self) -> (r: &str)
        ensures
            r@ == self@,
    {
        self.0.as_str()
    }

    /// The UTF-16 code units of the name, cut or padded with zero units to the field's width.
    pub fn to_units(&self) -> (r: Vec<u16>)
        ensures
            r@ == name_units(self@),
    {
        let s = self.0.as_str();
        let n = s.unicode_len();
        let mut out: Vec<u16> = Vec::new();
        let mut i: usize = 0;
        while i < n
            invariant
                i <= n,
                n == s@.len(),
                s@ == self@,
                out@ == utf16_of(s@.take(i as int)),
            decreases n - i,
        {
            let c = s.get_char(i);
            let v = c as u32;
            if v < 0x10000 {
                out.push(v as u16);
            } else {
                let w = v - 0x10000;
                out.push((0xD800 + w / 1024) as u16);
                out.push((0xDC00 + w % 1024) as u16);
            }
            assert(s@.take(i + 1).drop_last() =~= s@.take(i as int));
            i = i + 1;
        }
        assert(s@.take(n as int) =~= s@);
        if out.len() > NAME_UNITS - 1 {
            out.truncate(NAME_UNITS - 1);
        }
        assert(out@ =~= kept_units(self@));
        while out.len() < NAME_UNITS
            invariant
                out@.len() <= NAME_UNITS,
                kept_units(self@).len() <= out@.len(),
                kept_units(self@).len() < NAME_UNITS,
                out@.take(kept_units(self@).len() as int) == kept_units(self@),
                forall|j: int| kept_units(self@).len() <= j < out@.len() ==> out@[j] == 0u16,
            decreases NAME_UNITS - out@.len(),
        {
            let ghost prev = out@;
            out.push(0);
            assert(out@.take(kept_units(self@).len() as int) =~= prev.take(
                kept_units(self@).len() as int,
            ));
        }
        assert(out@.take(kept_units(self@).len() as int) =~= kept_units(self@));
        assert(out@ =~= name_units(self@));
        out
    }

    /// The name stored in a field of code units: the units after the first zero unit are
    /// ignored, and the rest are decoded as UTF-16, invalid sequences replaced.
    pub fn from_units(units: &[u16]) -> (r: PartitionName)
        ensures
            r@ == decode_name(units@),
    {
        let mut k: usize = 0;
        while k < units.len() && units[k] != 0
            invariant
                k <= units@.len(),
                forall|j: int| 0 <= j < k ==> units@[j] != 0,
            decreases units@.len() - k,
        {
            k = k + 1;
        }
        proof {
            lemma_nul_position(units@, k as int);
        }
        let mut kept: Vec<u16> = Vec::new();
        let mut i: usize = 0;
        while i < k
            invariant
                i <= k <= units@.len(),
                kept@ == units@.take(i as int),
            decreases k - i,
        {
            kept.push(units[i]);
            i = i + 1;
            assert(kept@ =~= units@.take(i as int));
        }
        assert(kept@ == before_nul(units@));
        let name = utf16_lossy(kept.as_slice());
        proof {
            let r = decode_name(units@);
            assert(lossy_decodes(r, before_nul(units@)));
            lemma_lossy_unique(r, name@, before_nul(units@));
        }
        PartitionName(name)
    }
}

/// The first zero unit, if any, stands at `k`.
proof fn lemma_nul_position(u: Seq<u16>, k: int)
    requires
        0 <= k <= u.len(),
        forall|j: int| 0 <= j < k ==> u[j] != 0,
        k < u.len() ==> u[k] == 0,
    ensures
        nul_position(u) == k,
    decreases u.len(),
{
    if u.len() > 0 && k > 0 {
        lemma_nul_position(u.drop_first(), k - 1);
    }
}

/// The code units of a string of characters of the Basic Multilingual Plane are their code points.
proof fn lemma_utf16_bmp(s: Seq<char>)
    requires
        forall|i: int| 0 <= i < s.len() ==> (#[trigger] s[i] as u32) < 0x10000,
    ensures
        utf16_of(s).len() == s.len(),
        forall|i: int| 0 <= i < s.len() ==> #[trigger] (utf16_of(s)[i] as u32) == s[i] as u32,
    decreases s.len(),
{
    if s.len() > 0 {
        let p = s.drop_last();
        assert forall|i: int| 0 <= i < p.len() implies (#[trigger] p[i] as u32) < 0x10000 by {
            assert(p[i] == s[i]);
        }
        lemma_utf16_bmp(p);
        assert forall|i: int| 0 <= i < s.len() implies #[trigger] (utf16_of(s)[i] as u32) == s[i]
            as u32 by {
            if i < p.len() {
                assert(p[i] == s[i]);
            }
        }
    }
}

/// No character's code point is a surrogate, and the code point determines the character.
proof fn lemma_char_code(c: char, d: char)
    ensures
        (c as u32) < 0xD800 || (c as u32) > 0xDFFF,
        (c as u32) == (d as u32) ==> c == d,
{
}

/// A name made of characters of the Basic Multilingual Plane other than U+0000 comes back from
/// its stored field cut to 35 characters (unchanged when it has at most 35).
pub proof fn lemma_name_round_trip(s: Seq<char>)
    requires
        forall|i: int| 0 <= i < s.len() ==> is_bmp_non_nul(#[trigger] s[i]),
    ensures
        decode_name(name_units(s)) == s.take(
            if s.len() < NAME_UNITS - 1 { s.len() as int } else { NAME_UNITS - 1 },
        ),
{
    let m: int = if s.len() < NAME_UNITS - 1 { s.len() as int } else { NAME_UNITS - 1 };
    let u = utf16_of(s);
    let k = kept_units(s);
    let f = name_units(s);
    lemma_utf16_bmp(s);
    assert(k.len() == m);
    assert(f == k + Seq::new((NAME_UNITS - m) as nat, |i: int| 0u16));
    assert forall|j: int| 0 <= j < m implies f[j] == u[j] && f[j] != 0 && !is_surrogate(f[j]) by {
        assert(is_bmp_non_nul(s[j]));
        assert((u[j] as u32) == s[j] as u32);
        lemma_char_code(s[j], s[j]);
        assert(f[j] == k[j]);
    }
    assert(f[m] == 0);
    lemma_nul_position(f, m);
    let kept = before_nul(f);
    let t = s.take(m);
    assert(kept.len() == m);
    assert forall|i: int| 0 <= i < kept.len() implies !is_surrogate(#[trigger] kept[i]) by {
        assert(kept[i] == f[i]);
    }
    assert forall|i: int| 0 <= i < kept.len() implies #[trigger] (t[i] as u32) == kept[i] as u32 by {
        assert(kept[i] == f[i]);
        assert((u[i] as u32) == s[i] as u32);
    }
    lemma_plain_decodes(t, kept);
    lemma_lossy_unique(decode_name(f), t, kept);
}

/// A name that its field stores exactly: at most 35 characters, each of the Basic Multilingual
/// Plane and other than U+0000.
pub open spec fn name_fits(s: Seq<char>) -> bool {
    &&& s.len() <= NAME_UNITS - 1
    &&& forall|i: int| 0 <= i < s.len() ==> is_bmp_non_nul(#[trigger] s[i])
}

/// A name that fits comes back from its stored field unchanged.
pub proof fn lemma_fitting_name(s: Seq<char>)
    requires
        name_fits(s),
    ensures
        decode_name(name_units(s)) == s,
{
    lemma_name_round_trip(s);
    assert(s.take(s.len() as int) =~= s);
}

} // verus!
