//! The metadata (enchantment) payload codec.
//!
//! The payload goes on the wire in the compound-tag format of the `nbt`
//! crate: a compound with one recognized field, `ench`, holding the
//! enchantment list as an integer array (id and level interleaved). On
//! decode any other fields are ignored, and a compound without the field
//! yields no list. What the compound bytes look like is the `nbt` crate's
//! business; this module names that byte string `nbt_encoding` and states
//! only what the slot codec needs of it.

use vstd::prelude::*;

use crate::stream::{ByteReader, ByteWriter, DecodeError};

verus! {

/// One enchantment on an item: its numeric kind and its level.
#[derive(Clone, Copy, Debug, PartialEq, Eq, Structural)]
pub struct Enchantment {
    pub id: u16,
    pub lvl: u16,
}

/// A payload seen abstractly: the ordered enchantment list, if any.
#[verifier::ext_equal]
pub struct ItemNbtModel {
    pub ench: Option<Seq<Enchantment>>,
}

/// The metadata payload of a slot: one recognized field, the ordered
/// enchantment list. An absent field means no enchantments.
#[derive(Debug, PartialEq)]
pub struct ItemNbt {
    pub ench: Option<Vec<Enchantment>>,
}

impl View for ItemNbt {
    type V = ItemNbtModel;

    open spec fn view(&self) -> ItemNbtModel {
        ItemNbtModel {
            ench: match self.ench {
                None => None,
                Some(v) => Some(v@),
            },
        }
    }
}

/// The integer entries that carry an enchantment list on the wire: each
/// enchantment contributes its id and then its level.
pub open spec fn packed_of(ench: Seq<Enchantment>) -> Seq<i32> {
    Seq::new(
        2 * ench.len(),
        |i: int|
            if i % 2 == 0 {
                ench[i / 2].id as i32
            } else {
                ench[i / 2].lvl as i32
            },
    )
}

/// The enchantment list carried by a well-formed entry sequence.
pub open spec fn unpacked_of(p: Seq<i32>) -> Seq<Enchantment> {
    Seq::new(
        p.len() / 2,
        |i: int| Enchantment { id: p[2 * i] as u16, lvl: p[2 * i + 1] as u16 },
    )
}

/// The entry sequences that some enchantment list packs to: id/level
/// pairs, every entry a 16-bit value, and few enough to be counted by the
/// wire's 32-bit length field.
pub open spec fn valid_packed(p: Seq<i32>) -> bool {
    &&& p.len() % 2 == 0
    &&& p.len() <= 0x7fff_ffff
    &&& forall|i: int| 0 <= i < p.len() ==> 0 <= #[trigger] p[i] <= 0xffff
}

pub open spec fn valid_packed_opt(m: Option<Seq<i32>>) -> bool {
    m matches Some(p) ==> valid_packed(p)
}

/// The packed entries of a payload: `None` when it has no list at all.
pub open spec fn packed_model(n: ItemNbtModel) -> Option<Seq<i32>> {
    match n.ench {
        None => None,
        Some(s) => Some(packed_of(s)),
    }
}

/// The payload rebuilt from packed entries.
pub open spec fn unpacked_model(m: Option<Seq<i32>>) -> ItemNbtModel {
    ItemNbtModel {
        ench: match m {
            None => None,
            Some(p) => Some(unpacked_of(p)),
        },
    }
}

/// The entries a `Vec` form of the optional array stands for.
pub open spec fn opt_entries(v: Option<Vec<i32>>) -> Option<Seq<i32>> {
    match v {
        None => None,
        Some(x) => Some(x@),
    }
}

/// The byte string the `nbt` crate's compound codec writes for a payload:
/// a compound whose one field, `ench`, holds the given entries as an
/// integer array, or a compound with no field at all for `None`. Only the
/// trusted wrappers below say anything about this name.
pub uninterp spec fn nbt_encoding(m: Option<Seq<i32>>) -> Seq<u8>;

/// What the slot codec's one-byte lookahead needs of a payload encoding:
/// it is nonempty and begins with a nonzero byte (the compound tag).
pub open spec fn nbt_enc_wf(m: Option<Seq<i32>>) -> bool {
    nbt_encoding(m).len() >= 1 && nbt_encoding(m)[0] != 0
}

/// How deep the decoder lets compounds and lists nest. The compound parser
/// recurses once per level, so this bound also bounds its call stack.
pub const SCAN_DEPTH: u32 = 64;

/// The largest element count the decoder accepts for one list. The parser
/// sizes a buffer of parsed elements up front from the declared count
/// alone, so the count has to be kept small enough for that buffer.
pub const LIST_MAX: u32 = 0x00ff_ffff;

/// The unsigned value of the first two big-endian bytes: a name or string
/// length on the wire.
pub open spec fn be_u16_at(s: Seq<u8>) -> int
    recommends
        s.len() >= 2,
{
    s[0] * 0x100 + s[1]
}

/// The first four big-endian bytes read as a signed 32-bit count, the form
/// every array and list length takes on the wire.
pub open spec fn be_i32_at(s: Seq<u8>) -> int
    recommends
        s.len() >= 4,
{
    let u = s[0] * 0x100_0000 + s[1] * 0x1_0000 + s[2] * 0x100 + s[3];
    if u >= 0x8000_0000 {
        u - 0x1_0000_0000
    } else {
        u
    }
}

/// How many bytes one payload of the given tag occupies at the front of
/// `s` — when it is completely present, every declared length fits in the
/// remaining bytes, list counts stay under `LIST_MAX`, and nesting stays
/// under `depth`. `None` otherwise. Feeding the compound parser only
/// accepted bytes keeps its up-front buffer sizes within the input's own
/// size and its recursion bounded.
pub open spec fn scan_payload(s: Seq<u8>, tag: u8, depth: nat) -> Option<int>
    decreases depth, s.len(), 0nat,
{
    if tag == 0x01 {
        if s.len() >= 1 {
            Some(1)
        } else {
            None
        }
    } else if tag == 0x02 {
        if s.len() >= 2 {
            Some(2)
        } else {
            None
        }
    } else if tag == 0x03 || tag == 0x05 {
        if s.len() >= 4 {
            Some(4)
        } else {
            None
        }
    } else if tag == 0x04 || tag == 0x06 {
        if s.len() >= 8 {
            Some(8)
        } else {
            None
        }
    } else if tag == 0x07 {
        if s.len() >= 4 && 0 <= be_i32_at(s) && 4 + be_i32_at(s) <= s.len() {
            Some(4 + be_i32_at(s))
        } else {
            None
        }
    } else if tag == 0x08 {
        if s.len() >= 2 && 2 + be_u16_at(s) <= s.len() {
            Some(2 + be_u16_at(s))
        } else {
            None
        }
    } else if tag == 0x09 {
        if s.len() >= 5 && 0 <= be_i32_at(s.skip(1)) && be_i32_at(s.skip(1)) <= LIST_MAX as int
            && depth > 0 {
            match scan_elems(s.skip(5), s[0], be_i32_at(s.skip(1)) as nat, (depth - 1) as nat) {
                None => None,
                Some(c) => if 5 + c <= s.len() {
                    Some(5 + c)
                } else {
                    None
                },
            }
        } else {
            None
        }
    } else if tag == 0x0a {
        if depth > 0 {
            scan_entries(s, (depth - 1) as nat)
        } else {
            None
        }
    } else if tag == 0x0b {
        if s.len() >= 4 && 0 <= be_i32_at(s) && 4 + 4 * be_i32_at(s) <= s.len() {
            Some(4 + 4 * be_i32_at(s))
        } else {
            None
        }
    } else if tag == 0x0c {
        if s.len() >= 4 && 0 <= be_i32_at(s) && 4 + 8 * be_i32_at(s) <= s.len() {
            Some(4 + 8 * be_i32_at(s))
        } else {
            None
        }
    } else {
        None
    }
}

/// How many bytes a run of named entries, closed by the end tag, occupies
/// at the front of `s`; `None` when any entry is truncated or out of
/// bounds.
pub open spec fn scan_entries(s: Seq<u8>, depth: nat) -> Option<int>
    decreases depth, s.len(), 1nat,
{
    if s.len() < 1 {
        None
    } else if s[0] == 0 {
        Some(1)
    } else if s.len() >= 3 && 3 + be_u16_at(s.skip(1)) <= s.len() {
        let name_end = 3 + be_u16_at(s.skip(1));
        match scan_payload(s.skip(name_end), s[0], depth) {
            None => None,
            Some(c) => if 1 <= c && name_end + c <= s.len() {
                match scan_entries(s.skip(name_end + c), depth) {
                    None => None,
                    Some(c2) => Some(name_end + c + c2),
                }
            } else {
                None
            },
        }
    } else {
        None
    }
}

/// How many bytes `count` consecutive payloads of one tag occupy at the
/// front of `s`; `None` when any of them is not completely present.
pub open spec fn scan_elems(s: Seq<u8>, tag: u8, count: nat, depth: nat) -> Option<int>
    decreases depth, s.len(), count + 2,
{
    if count == 0 {
        Some(0)
    } else {
        match scan_payload(s, tag, depth) {
            None => None,
            Some(c) => if 1 <= c && c <= s.len() {
                match scan_elems(s.skip(c), tag, (count - 1) as nat, depth) {
                    None => None,
                    Some(c2) => Some(c + c2),
                }
            } else {
                None
            },
        }
    }
}

/// How many bytes one complete blob — the compound tag, its name, and its
/// entries, the exact shape `nbt::Blob::from_reader` reads — occupies at
/// the front of `s`; `None` when it is malformed, truncated, out of
/// bounds, or nested too deep.
pub open spec fn nbt_scan(s: Seq<u8>) -> Option<int> {
    if s.len() >= 3 && s[0] == 0x0a && 3 + be_u16_at(s.skip(1)) <= s.len() {
        let name_end = 3 + be_u16_at(s.skip(1));
        match scan_entries(s.skip(name_end), SCAN_DEPTH as nat) {
            None => None,
            Some(c) => Some(name_end + c),
        }
    } else {
        None
    }
}

/// A payload encoding the scanner accepts whole: what the encoder's
/// trusted wrapper promises of every encoding it writes.
pub open spec fn nbt_scan_ok(m: Option<Seq<i32>>) -> bool {
    nbt_scan(nbt_encoding(m)) == Some(nbt_encoding(m).len() as int)
}

/// A prefix stays a prefix after both sequences drop the same front.
proof fn lemma_skip_prefix(s: Seq<u8>, t: Seq<u8>, k: int)
    requires
        s.is_prefix_of(t),
        0 <= k <= s.len(),
    ensures
        s.skip(k).is_prefix_of(t.skip(k)),
{
    assert(s =~= t.subrange(0, s.len() as int));
    assert(s.skip(k) =~= t.skip(k).subrange(0, s.skip(k).len() as int));
}

/// The scanner reads only the bytes it accepts, so whatever follows them
/// cannot change its verdict.
proof fn lemma_scan_payload_extend(s: Seq<u8>, t: Seq<u8>, tag: u8, depth: nat)
    requires
        scan_payload(s, tag, depth) is Some,
        s.is_prefix_of(t),
    ensures
        scan_payload(t, tag, depth) == scan_payload(s, tag, depth),
    decreases depth, s.len(), 0nat,
{
    assert(s =~= t.subrange(0, s.len() as int));
    if tag == 0x09 {
        lemma_skip_prefix(s, t, 1);
        assert(be_i32_at(t.skip(1)) == be_i32_at(s.skip(1)));
        lemma_skip_prefix(s, t, 5);
        lemma_scan_elems_extend(
            s.skip(5),
            t.skip(5),
            s[0],
            be_i32_at(s.skip(1)) as nat,
            (depth - 1) as nat,
        );
    } else if tag == 0x0a {
        lemma_scan_entries_extend(s, t, (depth - 1) as nat);
    }
}

proof fn lemma_scan_entries_extend(s: Seq<u8>, t: Seq<u8>, depth: nat)
    requires
        scan_entries(s, depth) is Some,
        s.is_prefix_of(t),
    ensures
        scan_entries(t, depth) == scan_entries(s, depth),
    decreases depth, s.len(), 1nat,
{
    assert(s =~= t.subrange(0, s.len() as int));
    if s[0] != 0 {
        lemma_skip_prefix(s, t, 1);
        assert(be_u16_at(t.skip(1)) == be_u16_at(s.skip(1)));
        let name_end = 3 + be_u16_at(s.skip(1));
        lemma_skip_prefix(s, t, name_end);
        lemma_scan_payload_extend(s.skip(name_end), t.skip(name_end), s[0], depth);
        let c = scan_payload(s.skip(name_end), s[0], depth)->Some_0;
        lemma_skip_prefix(s, t, name_end + c);
        lemma_scan_entries_extend(s.skip(name_end + c), t.skip(name_end + c), depth);
    }
}

proof fn lemma_scan_elems_extend(s: Seq<u8>, t: Seq<u8>, tag: u8, count: nat, depth: nat)
    requires
        scan_elems(s, tag, count, depth) is Some,
        s.is_prefix_of(t),
    ensures
        scan_elems(t, tag, count, depth) == scan_elems(s, tag, count, depth),
    decreases depth, s.len(), count + 2,
{
    assert(s =~= t.subrange(0, s.len() as int));
    if count > 0 {
        lemma_scan_payload_extend(s, t, tag, depth);
        let c = scan_payload(s, tag, depth)->Some_0;
        lemma_skip_prefix(s, t, c);
        lemma_scan_elems_extend(s.skip(c), t.skip(c), tag, (count - 1) as nat, depth);
    }
}

/// The whole-blob verdict is likewise unchanged by trailing bytes.
pub proof fn lemma_nbt_scan_extend(s: Seq<u8>, t: Seq<u8>)
    requires
        nbt_scan(s) is Some,
        s.is_prefix_of(t),
    ensures
        nbt_scan(t) == nbt_scan(s),
{
    assert(s =~= t.subrange(0, s.len() as int));
    lemma_skip_prefix(s, t, 1);
    assert(be_u16_at(t.skip(1)) == be_u16_at(s.skip(1)));
    let name_end = 3 + be_u16_at(s.skip(1));
    lemma_skip_prefix(s, t, name_end);
    lemma_scan_entries_extend(s.skip(name_end), t.skip(name_end), SCAN_DEPTH as nat);
}

/// Reads a big-endian 16-bit length off the buffer.
fn be_u16_len(bytes: &Vec<u8>, at: usize) -> (r: usize)
    requires
        at + 2 <= bytes@.len(),
    ensures
        r == be_u16_at(bytes@.skip(at as int)),
        r <= 0xffff,
{
    let _buf_len = bytes.len();
    let r = (bytes[at] as usize) * 0x100 + (bytes[at + 1] as usize);
    proof {
        assert(bytes@.skip(at as int)[0] == bytes@[at as int]);
        assert(bytes@.skip(at as int)[1] == bytes@[at as int + 1]);
    }
    r
}

/// Reads a big-endian 32-bit count off the buffer, refusing negatives.
fn be_i32_len(bytes: &Vec<u8>, at: usize) -> (r: Option<usize>)
    requires
        at + 4 <= bytes@.len(),
    ensures
        r matches Some(n) ==> n == be_i32_at(bytes@.skip(at as int)) && n <= 0x7fff_ffff,
        r is None ==> be_i32_at(bytes@.skip(at as int)) < 0,
{
    let _buf_len = bytes.len();
    proof {
        assert(bytes@.skip(at as int)[0] == bytes@[at as int]);
        assert(bytes@.skip(at as int)[1] == bytes@[at as int + 1]);
        assert(bytes@.skip(at as int)[2] == bytes@[at as int + 2]);
        assert(bytes@.skip(at as int)[3] == bytes@[at as int + 3]);
    }
    if bytes[at] >= 0x80 {
        None
    } else {
        Some(
            (bytes[at] as usize) * 0x100_0000 + (bytes[at + 1] as usize) * 0x1_0000 + (bytes[at
                + 2] as usize) * 0x100 + (bytes[at + 3] as usize),
        )
    }
}

/// Scans one payload, returning its absolute end position.
fn scan_payload_x(bytes: &Vec<u8>, at: usize, tag: u8, depth: u32) -> (r: Option<usize>)
    requires
        at <= bytes@.len(),
    ensures
        (match scan_payload(bytes@.skip(at as int), tag, depth as nat) {
            None => r is None,
            Some(c) => r matches Some(e) && e == at + c,
        }),
        r matches Some(e) ==> at < e <= bytes@.len(),
    decreases depth, 0int,
{
    let ghost s = bytes@.skip(at as int);
    let n_rem = bytes.len() - at;
    proof {
        assert(s.len() == n_rem);
    }
    if tag == 0x01 {
        if n_rem >= 1 {
            Some(at + 1)
        } else {
            None
        }
    } else if tag == 0x02 {
        if n_rem >= 2 {
            Some(at + 2)
        } else {
            None
        }
    } else if tag == 0x03 || tag == 0x05 {
        if n_rem >= 4 {
            Some(at + 4)
        } else {
            None
        }
    } else if tag == 0x04 || tag == 0x06 {
        if n_rem >= 8 {
            Some(at + 8)
        } else {
            None
        }
    } else if tag == 0x07 {
        if n_rem >= 4 {
            match be_i32_len(bytes, at) {
                None => None,
                Some(n) => if n <= n_rem - 4 {
                    Some(at + 4 + n)
                } else {
                    None
                },
            }
        } else {
            None
        }
    } else if tag == 0x08 {
        if n_rem >= 2 {
            let n = be_u16_len(bytes, at);
            if n <= n_rem - 2 {
                Some(at + 2 + n)
            } else {
                None
            }
        } else {
            None
        }
    } else if tag == 0x09 {
        if n_rem >= 5 && depth > 0 {
            let etag = bytes[at];
            proof {
                assert(s[0] == etag);
                assert(bytes@.skip(at as int + 1) =~= s.skip(1));
            }
            match be_i32_len(bytes, at + 1) {
                None => None,
                Some(n) => if n <= LIST_MAX as usize {
                    proof {
                        assert(bytes@.skip(at as int + 5) =~= s.skip(5));
                    }
                    match scan_elems_x(bytes, at + 5, etag, n, depth - 1) {
                        None => None,
                        Some(e) => Some(e),
                    }
                } else {
                    None
                },
            }
        } else {
            None
        }
    } else if tag == 0x0a {
        if depth > 0 {
            scan_entries_x(bytes, at, depth - 1)
        } else {
            None
        }
    } else if tag == 0x0b {
        if n_rem >= 4 {
            match be_i32_len(bytes, at) {
                None => None,
                Some(n) => if n <= (n_rem - 4) / 4 {
                    Some(at + 4 + 4 * n)
                } else {
                    None
                },
            }
        } else {
            None
        }
    } else if tag == 0x0c {
        if n_rem >= 4 {
            match be_i32_len(bytes, at) {
                None => None,
                Some(n) => if n <= (n_rem - 4) / 8 {
                    Some(at + 4 + 8 * n)
                } else {
                    None
                },
            }
        } else {
            None
        }
    } else {
        None
    }
}

/// Scans a run of named entries up to and including the end tag, returning
/// the absolute position just past it.
fn scan_entries_x(bytes: &Vec<u8>, at: usize, depth: u32) -> (r: Option<usize>)
    requires
        at <= bytes@.len(),
    ensures
        (match scan_entries(bytes@.skip(at as int), depth as nat) {
            None => r is None,
            Some(c) => r matches Some(e) && e == at + c,
        }),
        r matches Some(e) ==> at < e <= bytes@.len(),
    decreases depth, 1int,
{
    let mut cur = at;
    loop
        invariant
            at <= cur <= bytes@.len(),
            (match scan_entries(bytes@.skip(cur as int), depth as nat) {
                None => scan_entries(bytes@.skip(at as int), depth as nat) is None,
                Some(c) => scan_entries(bytes@.skip(at as int), depth as nat) == Some(
                    cur - at + c,
                ),
            }),
        decreases bytes@.len() - cur,
    {
        let ghost s = bytes@.skip(cur as int);
        if cur >= bytes.len() {
            return None;
        }
        let t = bytes[cur];
        proof {
            assert(s[0] == t);
        }
        if t == 0 {
            return Some(cur + 1);
        }
        if bytes.len() - cur < 3 {
            return None;
        }
        proof {
            assert(bytes@.skip(cur as int + 1) =~= s.skip(1));
        }
        let n = be_u16_len(bytes, cur + 1);
        if n > bytes.len() - cur - 3 {
            return None;
        }
        let pos = cur + 3 + n;
        proof {
            assert(bytes@.skip(pos as int) =~= s.skip(3 + n));
        }
        match scan_payload_x(bytes, pos, t, depth) {
            None => {
                return None;
            },
            Some(pe) => {
                proof {
                    assert(bytes@.skip(pe as int) =~= s.skip(3 + n + (pe - pos)));
                }
                cur = pe;
            },
        }
    }
}

/// Scans `count` consecutive payloads, returning the absolute position
/// just past the last.
fn scan_elems_x(bytes: &Vec<u8>, at: usize, tag: u8, count: usize, depth: u32) -> (r: Option<
    usize,
>)
    requires
        at <= bytes@.len(),
    ensures
        (match scan_elems(bytes@.skip(at as int), tag, count as nat, depth as nat) {
            None => r is None,
            Some(c) => r matches Some(e) && e == at + c,
        }),
        r matches Some(e) ==> at <= e <= bytes@.len(),
    decreases depth, 1int,
{
    let mut cur = at;
    let mut left = count;
    loop
        invariant
            at <= cur <= bytes@.len(),
            (match scan_elems(bytes@.skip(cur as int), tag, left as nat, depth as nat) {
                None => scan_elems(bytes@.skip(at as int), tag, count as nat, depth as nat)
                    is None,
                Some(c) => scan_elems(bytes@.skip(at as int), tag, count as nat, depth as nat)
                    == Some(cur - at + c),
            }),
        decreases left,
    {
        if left == 0 {
            return Some(cur);
        }
        let ghost s = bytes@.skip(cur as int);
        match scan_payload_x(bytes, cur, tag, depth) {
            None => {
                return None;
            },
            Some(e) => {
                proof {
                    assert(bytes@.skip(e as int) =~= s.skip(e - cur));
                }
                cur = e;
                left = left - 1;
            },
        }
    }
}

/// Checks that the bytes from `start` begin with one complete, in-bounds
/// blob of bounded nesting — the only inputs the decoder hands to the
/// compound parser — and returns its absolute end.
fn scan_blob(bytes: &Vec<u8>, start: usize) -> (r: Option<usize>)
    requires
        start <= bytes@.len(),
    ensures
        (match nbt_scan(bytes@.skip(start as int)) {
            None => r is None,
            Some(c) => r matches Some(e) && e == start + c,
        }),
        r matches Some(e) ==> start < e <= bytes@.len(),
{
    let ghost s = bytes@.skip(start as int);
    if bytes.len() - start < 3 {
        return None;
    }
    if bytes[start] != 0x0a {
        proof {
            assert(s[0] != 0x0a);
        }
        return None;
    }
    proof {
        assert(s[0] == 0x0a);
        assert(bytes@.skip(start as int + 1) =~= s.skip(1));
    }
    let n = be_u16_len(bytes, start + 1);
    if n > bytes.len() - start - 3 {
        return None;
    }
    let name_end = start + 3 + n;
    proof {
        assert(bytes@.skip(name_end as int) =~= s.skip(3 + n));
    }
    match scan_entries_x(bytes, name_end, SCAN_DEPTH) {
        None => None,
        Some(e) => Some(e),
    }
}

/// The `nbt` crate's error type, opaque here; every parse failure maps to
/// `DecodeError::InvalidNbt`.
#[verifier::external_type_specification]
#[verifier::external_body]
pub struct ExNbtError(nbt::Error);

/// Relies on `nbt::Blob::to_writer` (with `Blob::new` and `Blob::insert`):
/// a blob with at most the one integer-array field `ench` appends its
/// compound encoding, a function of the entries alone. That encoding
/// begins with the compound tag byte `0x0a`, which is not zero, and — a
/// flat compound of one in-bounds array, nested one level — it passes the
/// scanner whole. The length bound keeps the entry count within the wire's
/// 32-bit length field.
#[verifier::external_body]
fn nbt_blob_write(ench: &Option<Vec<i32>>, out: &mut Vec<u8>)
    requires
        opt_entries(*ench) matches Some(p) ==> p.len() <= 0x7fff_ffff,
    ensures
        final(out)@ == old(out)@ + nbt_encoding(opt_entries(*ench)),
        final(out)@.len() > old(out)@.len(),
        final(out)@[old(out)@.len() as int] != 0,
        nbt_scan(final(out)@.skip(old(out)@.len() as int)) == Some(
            nbt_encoding(opt_entries(*ench)).len() as int,
        ),
{
    let mut blob = nbt::Blob::new();
    if let Some(v) = ench {
        blob.insert("ench", nbt::Value::IntArray(v.clone())).unwrap();
    }
    blob.to_writer(out).unwrap();
}

/// Relies on `nbt::Blob::from_reader`: it parses one complete compound off
/// the front of the input, consuming exactly the compound's own bytes, and
/// parsing is deterministic, so an input that begins with the encoding of
/// some entries hands those entries back (`None` when the field is absent)
/// together with the encoding's length. Nothing is promised of other
/// inputs beyond the consumed count staying within the buffer.
///
/// The scanner precondition keeps the parser away from the inputs on which
/// it would not merely fail: it sizes array and list buffers up front from
/// declared counts (`Vec::with_capacity` in its array and list readers),
/// and it recurses once per nesting level, so only counts checked against
/// the remaining input and bounded nesting are let through.
#[verifier::external_body]
fn nbt_blob_read(bytes: &Vec<u8>, start: usize) -> (r: Result<(Option<Vec<i32>>, usize), nbt::Error>)
    requires
        start <= bytes@.len(),
        nbt_scan(bytes@.skip(start as int)) is Some,
    ensures
        r is Ok ==> start + (r->Ok_0).1 <= bytes@.len(),
        forall|m: Option<Seq<i32>>|
            valid_packed_opt(m) && (#[trigger] nbt_encoding(m)).is_prefix_of(
                bytes@.skip(start as int),
            ) ==> r is Ok && opt_entries((r->Ok_0).0) == m && (r->Ok_0).1 == nbt_encoding(m).len(),
{
    let mut cur = std::io::Cursor::new(&bytes[start..]);
    let blob = nbt::Blob::from_reader(&mut cur)?;
    let ench = match blob.get("ench") {
        Some(nbt::Value::IntArray(v)) => Some(v.clone()),
        _ => None,
    };
    Ok((ench, cur.position() as usize))
}

/// Packs an enchantment list into its wire entries.
fn pack_entries(ench: &Vec<Enchantment>) -> (r: Vec<i32>)
    ensures
        r@ == packed_of(ench@),
{
    let n = ench.len();
    let mut r: Vec<i32> = Vec::new();
    let mut i: usize = 0;
    while i < n
        invariant
            i <= n,
            n == ench@.len(),
            r@ == packed_of(ench@.take(i as int)),
        decreases n - i,
    {
        let e = ench[i];
        r.push(e.id as i32);
        r.push(e.lvl as i32);
        i = i + 1;
        proof {
            assert(r@ =~= packed_of(ench@.take(i as int)));
        }
    }
    proof {
        assert(ench@.take(n as int) =~= ench@);
    }
    r
}

/// Rebuilds the enchantment list from wire entries, rejecting entry
/// sequences that no list packs to.
fn unpack_entries(p: &Vec<i32>) -> (r: Result<Vec<Enchantment>, DecodeError>)
    ensures
        valid_packed(p@) ==> r is Ok && (r->Ok_0)@ == unpacked_of(p@),
        r is Ok ==> packed_of((r->Ok_0)@) == p@,
{
    let n = p.len();
    if n % 2 != 0 || n > 0x7fff_ffff {
        return Err(DecodeError::InvalidNbt);
    }
    let mut r: Vec<Enchantment> = Vec::new();
    let mut i: usize = 0;
    while i < n
        invariant
            i <= n,
            i % 2 == 0,
            n % 2 == 0,
            n == p@.len(),
            r@ == unpacked_of(p@.take(i as int)),
            packed_of(r@) == p@.take(i as int),
        decreases n - i,
    {
        let a = p[i];
        let b = p[i + 1];
        if a < 0 || a > 0xffff || b < 0 || b > 0xffff {
            proof {
                assert(!valid_packed(p@));
            }
            return Err(DecodeError::InvalidNbt);
        }
        r.push(Enchantment { id: a as u16, lvl: b as u16 });
        i = i + 2;
        proof {
            assert(r@ =~= unpacked_of(p@.take(i as int)));
            assert(packed_of(r@) =~= p@.take(i as int));
        }
    }
    proof {
        assert(p@.take(n as int) =~= p@);
    }
    Ok(r)
}

/// Packing and unpacking are inverse, so an entry sequence pins down the
/// enchantment list that produced it.
pub proof fn lemma_pack_unpack(ench: Seq<Enchantment>)
    requires
        ench.len() <= 0x3fff_ffff,
    ensures
        valid_packed(packed_of(ench)),
        unpacked_of(packed_of(ench)) == ench,
{
    assert forall|i: int| 0 <= i < packed_of(ench).len() implies 0 <= #[trigger] packed_of(
        ench,
    )[i] <= 0xffff by {
        if i % 2 == 0 {
            assert(packed_of(ench)[i] == ench[i / 2].id as i32);
        } else {
            assert(packed_of(ench)[i] == ench[i / 2].lvl as i32);
        }
    }
    assert(unpacked_of(packed_of(ench)) =~= ench);
}

impl ItemNbt {
    /// Encodes the payload: the compound bytes the `nbt` codec writes for
    /// it, appended to the writer. The length bound is what the wire's
    /// 32-bit entry count forces.
    pub fn write_to_bytes(self, writer: &mut ByteWriter)
        requires
            self@.ench matches Some(s) ==> s.len() <= 0x3fff_ffff,
        ensures
            final(writer)@ == old(writer)@ + nbt_encoding(packed_model(self@)),
            nbt_enc_wf(packed_model(self@)),
            nbt_scan_ok(packed_model(self@)),
    {
        let ghost model = self@;
        let packed: Option<Vec<i32>> = match self.ench {
            None => None,
            Some(v) => Some(pack_entries(&v)),
        };
        proof {
            assert(opt_entries(packed) == packed_model(model));
        }
        let mut tmp: Vec<u8> = Vec::new();
        nbt_blob_write(&packed, &mut tmp);
        proof {
            assert(tmp@ =~= nbt_encoding(packed_model(model)));
            assert(tmp@.skip(0) =~= tmp@);
        }
        writer.append(&tmp);
    }

    /// Decodes a payload off the stream. The bytes are first held to the
    /// scanner, so a compound that is truncated, out of bounds, over-long
    /// or too deeply nested fails here with `InvalidNbt` instead of
    /// reaching the parser; only then is one compound's worth of bytes
    /// consumed and the recognized field recovered. On failure nothing is
    /// consumed. An input that begins with the encoding of some packable
    /// entries yields exactly the list those entries carry.
    pub fn read_from_bytes(reader: &mut ByteReader) -> (r: Result<ItemNbt, DecodeError>)
        requires
            old(reader).wf(),
        ensures
            final(reader).wf(),
            final(reader).sdata() == old(reader).sdata(),
            r is Ok ==> old(reader).spos() <= final(reader).spos() <= old(reader).sdata().len(),
            r is Err ==> final(reader).spos() == old(reader).spos(),
            nbt_scan(old(reader).remaining()) is None ==> r == Err::<ItemNbt, DecodeError>(
                DecodeError::InvalidNbt,
            ),
            forall|m: Option<Seq<i32>>|
                valid_packed_opt(m) && nbt_scan_ok(m) && (#[trigger] nbt_encoding(
                    m,
                )).is_prefix_of(old(reader).remaining()) ==> r is Ok && (r->Ok_0)@
                    == unpacked_model(m) && final(reader).spos() == old(reader).spos()
                    + nbt_encoding(m).len(),
    {
        let start = reader.position();
        if scan_blob(reader.data(), start).is_none() {
            proof {
                assert(old(reader).remaining() =~= reader.sdata().skip(start as int));
                assert forall|m: Option<Seq<i32>>|
                    valid_packed_opt(m) && nbt_scan_ok(m) && (#[trigger] nbt_encoding(
                        m,
                    )).is_prefix_of(old(reader).remaining()) implies false by {
                    lemma_nbt_scan_extend(nbt_encoding(m), old(reader).remaining());
                }
            }
            return Err(DecodeError::InvalidNbt);
        }
        let parsed = nbt_blob_read(reader.data(), start);
        match parsed {
            Err(_) => Err(DecodeError::InvalidNbt),
            Ok((opt, used)) => match opt {
                None => {
                    reader.advance(used);
                    Ok(ItemNbt { ench: None })
                },
                Some(v) => match unpack_entries(&v) {
                    Err(e) => Err(e),
                    Ok(list) => {
                        reader.advance(used);
                        Ok(ItemNbt { ench: Some(list) })
                    },
                },
            },
        }
    }
}

} // verus!
