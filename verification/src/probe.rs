//! What a Vulkan driver can be used for.

use vstd::prelude::*;

verus! {

/// The text that `String::from_utf8_lossy` makes of bytes.
pub uninterp spec fn lossy_text(bytes: Seq<u8>) -> Seq<char>;

/// Calls `String::from_utf8_lossy`. The result depends on the bytes alone, and
/// bytes that are UTF-8 come out as the text they encode.
#[verifier::external_body]
fn text_lossy(bytes: &[u8]) -> (r: String)
    ensures
        r@ == lossy_text(bytes@),
        vstd::utf8::valid_utf8(bytes@) ==> r@ == vstd::utf8::decode_utf8(bytes@),
{
    String::from_utf8_lossy(bytes).into_owned()
}

/// `n` is where the text in `bytes` ends: at the first zero, or with the bytes.
pub open spec fn ends_at(bytes: Seq<u8>, n: int) -> bool {
    &&& 0 <= n <= bytes.len()
    &&& forall|k: int| 0 <= k < n ==> bytes[k] != 0
    &&& n < bytes.len() ==> bytes[n] == 0
}

/// Where the text in a zero-terminated array ends.
pub fn text_len(arr: &[u8]) -> (r: usize)
    ensures
        ends_at(arr@, r as int),
{
    let n: usize = arr.len();
    let mut i: usize = 0;
    while i < n
        invariant
            i <= n,
            n == arr@.len(),
            forall|k: int| 0 <= k < i ==> arr@[k] != 0,
        decreases n - i,
    {
        if arr[i] == 0 {
            return i;
        }
        i += 1;
    }
    n
}

/// The text in a zero-terminated array.
pub fn arr_to_str(arr: &[u8]) -> (r: String)
    ensures
        exists|n: int| #[trigger]
            ends_at(arr@, n) && r@ == lossy_text(arr@.take(n)) && (vstd::utf8::valid_utf8(arr@.take(n))
                ==> r@ == vstd::utf8::decode_utf8(arr@.take(n))),
{
    let n: usize = text_len(arr);
    let front = vstd::slice::slice_subrange(arr, 0, n);
    assert(front@ =~= arr@.take(n as int));
    text_lossy(front)
}

/// Whether the driver has an extension.
pub fn check_ext(name: &str, available: &Vec<String>) -> (r: bool)
    ensures
        r <==> exists|i: int| 0 <= i < available@.len() && (#[trigger] available@[i])@ == name@,
{
    let wanted: String = name.to_owned();
    let mut i: usize = 0;
    while i < available.len()
        invariant
            i <= available@.len(),
            wanted@ == name@,
            forall|k: int| 0 <= k < i ==> (#[trigger] available@[k])@ != name@,
        decreases available@.len() - i,
    {
        if available[i] == wanted {
            assert(available@[i as int]@ == name@);
            return true;
        }
        i += 1;
    }
    false
}

pub fn ok_str(ok: bool) -> (r: &'static str)
    ensures
        r@ == (if ok {
            "✅ OK"@
        } else {
            "❌ MISSING"@
        }),
{
    if ok {
        "✅ OK"
    } else {
        "❌ MISSING"
    }
}

/// How frames can get to the screen.
#[derive(Clone, Copy, Debug, PartialEq, Eq, Structural)]
pub enum FramePath {
    /// Buffers are imported as they are.
    Direct,
    /// Buffers are copied through hardware buffers.
    Blit,
    Unavailable,
}

/// The path that the driver's extensions allow.
pub fn recommend_path(has_dma_import: bool, has_modifier: bool, has_ahb: bool) -> (r: FramePath)
    ensures
        r == (if has_dma_import && has_modifier {
            FramePath::Direct
        } else if has_ahb {
            FramePath::Blit
        } else {
            FramePath::Unavailable
        }),
{
    if has_dma_import && has_modifier {
        FramePath::Direct
    } else if has_ahb {
        FramePath::Blit
    } else {
        FramePath::Unavailable
    }
}

} // verus!
