//! Hardware buffer handles as `AHardwareBuffer_sendHandleToUnixSocket` writes
//! them: a flattened graphic buffer, or the plain native handle of older
//! systems. The descriptors arrive beside the bytes.
//!
//! A flattened buffer is a header of 32-bit words and then integers:
//!
//! | word | meaning                    |
//! |------|----------------------------|
//! | 0    | tag                        |
//! | 1..6 | width, height, stride, format, layers |
//! | 6    | usage, low half            |
//! | 7, 8 | id                         |
//! | 9    | generation                 |
//! | 10   | number of descriptors      |
//! | 11   | number of integers         |
//! | 12   | usage, high half           |
//!
//! The tag may come in either byte order. The older flattening has the first
//! twelve words only, and no integers.

use vstd::prelude::*;
use crate::wire::read_word;

verus! {

/// Tag of the flattened form: `GB01` in memory order.
pub const FLAT_MAGIC: u32 = 0x3130_4247;

/// The same tag in the other byte order, `10BG` in memory order.
pub const FLAT_MAGIC_SWAPPED: u32 = 0x4742_3031;

/// Tag of the older flattened form: `GBFR` in memory order.
pub const FLAT_MAGIC_LEGACY: u32 = 0x5246_4247;

/// Bytes of the flattened header.
pub const FLAT_HEADER_LEN: usize = 52;

/// Bytes of the older flattened header.
pub const FLAT_HEADER_LEN_LEGACY: usize = 48;

/// Where either flattened header counts the descriptors.
pub const FLAT_NUM_FDS_OFFSET: usize = 40;

/// Where the flattened header counts the integers.
pub const FLAT_NUM_INTS_OFFSET: usize = 44;

/// Bytes of the plain header: version, descriptors, integers.
pub const NATIVE_HEADER_LEN: usize = 12;

#[derive(Debug)]
pub struct ParsedHandle<F> {
    pub version: i32,
    pub num_fds: i32,
    pub num_ints: i32,
    pub ints: Vec<i32>,
    pub fds: Vec<F>,
}

/// The signed word at byte `at`.
pub open spec fn le_int(s: Seq<u8>, at: int) -> i32 {
    crate::wire::le_word(s, at) as i32
}

/// What a header says, and how long it is.
pub struct Header {
    pub version: i32,
    pub num_fds: i32,
    pub num_ints: i32,
    pub len: nat,
}

/// The tag announces the flattened form, in one byte order or the other.
pub open spec fn is_flat(magic: u32) -> bool {
    magic == FLAT_MAGIC || magic == FLAT_MAGIC_SWAPPED
}

/// The header at the front of `data`, by its tag.
pub open spec fn header(data: Seq<u8>) -> Option<Header> {
    let magic = crate::wire::le_word(data, 0);
    if data.len() < 4 {
        None
    } else if is_flat(magic) {
        if data.len() < FLAT_HEADER_LEN {
            None
        } else {
            Some(
                Header {
                    version: 0,
                    num_fds: le_int(data, 40),
                    num_ints: le_int(data, 44),
                    len: FLAT_HEADER_LEN as nat,
                },
            )
        }
    } else if magic == FLAT_MAGIC_LEGACY {
        if data.len() < FLAT_HEADER_LEN_LEGACY {
            None
        } else {
            Some(
                Header {
                    version: 0,
                    num_fds: le_int(data, 40),
                    num_ints: 0,
                    len: FLAT_HEADER_LEN_LEGACY as nat,
                },
            )
        }
    } else if data.len() < NATIVE_HEADER_LEN {
        None
    } else {
        Some(
            Header {
                version: le_int(data, 0),
                num_fds: le_int(data, 4),
                num_ints: le_int(data, 8),
                len: NATIVE_HEADER_LEN as nat,
            },
        )
    }
}

/// The bytes and the descriptors hold all that the header announces.
pub open spec fn complete(data: Seq<u8>, fds: nat) -> bool {
    match header(data) {
        None => false,
        Some(h) => h.num_fds >= 0 && h.num_ints >= 0 && h.num_fds <= fds && h.len + 4 * h.num_ints
            <= data.len(),
    }
}

/// The integers behind the header.
pub open spec fn ints_of(data: Seq<u8>, h: Header) -> Seq<i32> {
    Seq::new(h.num_ints as nat, |i: int| le_int(data, h.len + 4 * i))
}

fn read_int(data: &[u8], at: usize) -> (r: i32)
    requires
        at + 4 <= data@.len(),
    ensures
        r == le_int(data@, at as int),
{
    #[verifier::truncate]
    (read_word(data, at) as i32)
}

/// Parses a handle. `None` when bytes or descriptors are missing or a count is
/// negative. The handle owns exactly the announced descriptors, the leading
/// ones.
pub fn parse_native_handle<F>(data: &[u8], fds: Vec<F>) -> (r: Option<ParsedHandle<F>>)
    ensures
        r is Some <==> complete(data@, fds@.len()),
        r matches Some(p) ==> {
            let h = header(data@)->Some_0;
            &&& p.version == h.version
            &&& p.num_fds == h.num_fds
            &&& p.num_ints == h.num_ints
            &&& p.ints@ == ints_of(data@, h)
            &&& p.fds@ == fds@.take(h.num_fds as int)
        },
{
    if data.len() < 4 {
        return None;
    }
    let magic: u32 = read_word(data, 0);
    let new_format: bool = magic == FLAT_MAGIC || magic == FLAT_MAGIC_SWAPPED;
    if new_format || magic == FLAT_MAGIC_LEGACY {
        parse_flat_handle(data, fds, new_format)
    } else {
        parse_legacy_native_handle(data, fds)
    }
}

/// Parses a flattened buffer of either form.
fn parse_flat_handle<F>(data: &[u8], fds: Vec<F>, new_format: bool) -> (r: Option<ParsedHandle<F>>)
    requires
        data@.len() >= 4,
        new_format == is_flat(crate::wire::le_word(data@, 0)),
        !new_format ==> crate::wire::le_word(data@, 0) == FLAT_MAGIC_LEGACY,
    ensures
        r is Some <==> complete(data@, fds@.len()),
        r matches Some(p) ==> {
            let h = header(data@)->Some_0;
            &&& p.version == h.version
            &&& p.num_fds == h.num_fds
            &&& p.num_ints == h.num_ints
            &&& p.ints@ == ints_of(data@, h)
            &&& p.fds@ == fds@.take(h.num_fds as int)
        },
{
    let header_len: usize = if new_format {
        FLAT_HEADER_LEN
    } else {
        FLAT_HEADER_LEN_LEGACY
    };
    if data.len() < header_len {
        return None;
    }
    let num_fds: i32 = read_int(data, FLAT_NUM_FDS_OFFSET);
    let num_ints: i32 = if new_format {
        read_int(data, FLAT_NUM_INTS_OFFSET)
    } else {
        0
    };
    assemble(data, fds, 0, num_fds, num_ints, header_len)
}

/// Parses a plain native handle.
fn parse_legacy_native_handle<F>(data: &[u8], fds: Vec<F>) -> (r: Option<ParsedHandle<F>>)
    requires
        data@.len() >= 4,
        !is_flat(crate::wire::le_word(data@, 0)),
        crate::wire::le_word(data@, 0) != FLAT_MAGIC_LEGACY,
    ensures
        r is Some <==> complete(data@, fds@.len()),
        r matches Some(p) ==> {
            let h = header(data@)->Some_0;
            &&& p.version == h.version
            &&& p.num_fds == h.num_fds
            &&& p.num_ints == h.num_ints
            &&& p.ints@ == ints_of(data@, h)
            &&& p.fds@ == fds@.take(h.num_fds as int)
        },
{
    if data.len() < NATIVE_HEADER_LEN {
        return None;
    }
    let version: i32 = read_int(data, 0);
    let num_fds: i32 = read_int(data, 4);
    let num_ints: i32 = read_int(data, 8);
    assemble(data, fds, version, num_fds, num_ints, NATIVE_HEADER_LEN)
}

/// Collects what a header announces.
fn assemble<F>(
    data: &[u8],
    fds: Vec<F>,
    version: i32,
    num_fds: i32,
    num_ints: i32,
    header_len: usize,
) -> (r: Option<ParsedHandle<F>>)
    requires
        header_len <= data@.len(),
        header_len <= FLAT_HEADER_LEN,
    ensures
        r is Some <==> num_fds >= 0 && num_ints >= 0 && num_fds <= fds@.len() && header_len + 4
            * num_ints <= data@.len(),
        r matches Some(p) ==> {
            &&& p.version == version
            &&& p.num_fds == num_fds
            &&& p.num_ints == num_ints
            &&& p.ints@ == ints_of(
                data@,
                Header { version, num_fds, num_ints, len: header_len as nat },
            )
            &&& p.fds@ == fds@.take(num_fds as int)
        },
{
    if num_fds < 0 || num_ints < 0 {
        return None;
    }
    if (fds.len() as u64) < num_fds as u64 {
        return None;
    }
    if (data.len() as u64) < header_len as u64 + num_ints as u64 * 4 {
        return None;
    }
    let len: usize = data.len();
    let count: usize = num_ints as usize;
    let ghost h = Header { version, num_fds, num_ints, len: header_len as nat };
    let mut ints: Vec<i32> = Vec::with_capacity(count);
    let mut i: usize = 0;
    while i < count
        invariant
            i <= count,
            count == num_ints,
            len == data@.len(),
            header_len + 4 * count <= len,
            h.len == header_len,
            ints@.len() == i,
            forall|k: int| 0 <= k < i ==> #[trigger] ints@[k] == le_int(data@, h.len + 4 * k),
        decreases count - i,
    {
        ints.push(read_int(data, header_len + i * 4));
        i += 1;
    }
    assert(ints@ =~= ints_of(data@, h));
    let mut handle_fds = fds;
    let _ = handle_fds.split_off(num_fds as usize);
    Some(ParsedHandle { version, num_fds, num_ints, ints, fds: handle_fds })
}

/// What a header says stands in fixed words, by the tag: descriptors in word ten
/// and integers in word eleven of a flattened buffer, descriptors in word one and
/// integers in word two of a plain handle. The older flattening has no integers.
pub proof fn lemma_counts_stand_in_place(data: Seq<u8>)
    ensures
        ({
            let magic = crate::wire::le_word(data, 0);
            let flat = magic == 0x3130_4247 || magic == 0x4742_3031;
            let older = magic == 0x5246_4247;
            &&& header(data) is None <==> data.len() < 4 || (flat && data.len() < 52) || (older
                && data.len() < 48) || (!flat && !older && data.len() < 12)
            &&& header(data) matches Some(h) ==> {
                &&& flat ==> h.version == 0 && h.len == 52 && h.num_fds == crate::wire::le_word(
                    data,
                    40,
                ) as i32 && h.num_ints == crate::wire::le_word(data, 44) as i32
                &&& older ==> h.version == 0 && h.len == 48 && h.num_fds == crate::wire::le_word(
                    data,
                    40,
                ) as i32 && h.num_ints == 0
                &&& !flat && !older ==> h.version == magic as i32 && h.len == 12 && h.num_fds
                    == crate::wire::le_word(data, 4) as i32 && h.num_ints == crate::wire::le_word(
                    data,
                    8,
                ) as i32
            }
        }),
{
}

/// A handle is complete exactly if no count is negative and neither descriptors
/// nor bytes are missing; what is more of either does not matter. The integers
/// stand behind the header, in order.
pub proof fn lemma_complete_means_nothing_missing(
    data: Seq<u8>,
    more: Seq<u8>,
    fds: nat,
    more_fds: nat,
    i: int,
)
    ensures
        complete(data, fds) <==> header(data) is Some && ({
            let h = header(data)->Some_0;
            0 <= h.num_fds <= fds && 0 <= h.num_ints && h.len + 4 * h.num_ints <= data.len()
        }),
        complete(data, fds) ==> complete(data + more, fds + more_fds),
        complete(data, fds) && 0 <= i < header(data)->Some_0.num_ints ==> ints_of(
            data,
            header(data)->Some_0,
        )[i] == crate::wire::le_word(data, header(data)->Some_0.len + 4 * i) as i32 && ints_of(
            data,
            header(data)->Some_0,
        ).len() == header(data)->Some_0.num_ints,
{
    if complete(data, fds) {
        let all = data + more;
        assert(crate::wire::le_word(all, 0) == crate::wire::le_word(data, 0));
        if data.len() >= 12 {
            assert(crate::wire::le_word(all, 4) == crate::wire::le_word(data, 4));
            assert(crate::wire::le_word(all, 8) == crate::wire::le_word(data, 8));
        }
        if data.len() >= 48 {
            assert(crate::wire::le_word(all, 40) == crate::wire::le_word(data, 40));
            assert(crate::wire::le_word(all, 44) == crate::wire::le_word(data, 44));
        }
    }
}

} // verus!
