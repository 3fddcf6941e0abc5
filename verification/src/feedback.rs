//! What the compositor offers its clients for buffers on the GPU.

use vstd::prelude::*;
use vstd::string::*;
use crate::proto::{
    DRM_FORMAT_ABGR8888, DRM_FORMAT_ARGB8888, DRM_FORMAT_MOD_LINEAR, DRM_FORMAT_XBGR8888,
    DRM_FORMAT_XRGB8888,
};

verus! {

/// A pixel format and the layout modifier it is offered with.
#[derive(Clone, Copy, Debug, PartialEq, Eq, Structural)]
pub struct OfferedFormat {
    pub fourcc: u32,
    pub modifier: u64,
}

/// The formats that are offered: linear only, since a compressed buffer cannot
/// be read by the App.
pub fn build_default_feedback() -> (r: Vec<OfferedFormat>)
    ensures
        r@ == seq![
            OfferedFormat { fourcc: DRM_FORMAT_XRGB8888, modifier: DRM_FORMAT_MOD_LINEAR },
            OfferedFormat { fourcc: DRM_FORMAT_ARGB8888, modifier: DRM_FORMAT_MOD_LINEAR },
            OfferedFormat { fourcc: DRM_FORMAT_XBGR8888, modifier: DRM_FORMAT_MOD_LINEAR },
            OfferedFormat { fourcc: DRM_FORMAT_ABGR8888, modifier: DRM_FORMAT_MOD_LINEAR },
        ],
{
    let fourccs: [u32; 4] = [
        DRM_FORMAT_XRGB8888,
        DRM_FORMAT_ARGB8888,
        DRM_FORMAT_XBGR8888,
        DRM_FORMAT_ABGR8888,
    ];
    let mut formats: Vec<OfferedFormat> = Vec::new();
    let mut i: usize = 0;
    while i < 4
        invariant
            i <= 4,
            formats@.len() == i,
            forall|k: int|
                0 <= k < i ==> #[trigger] formats@[k] == (OfferedFormat {
                    fourcc: fourccs@[k],
                    modifier: DRM_FORMAT_MOD_LINEAR,
                }),
        decreases 4 - i,
    {
        formats.push(OfferedFormat { fourcc: fourccs[i], modifier: DRM_FORMAT_MOD_LINEAR });
        i += 1;
    }
    formats
}

/// The name of a render node in the device directory.
pub open spec fn names_render_node(name: Seq<char>) -> bool {
    name.len() >= 7 && name.take(7) == "renderD"@
}

/// Whether an entry of the device directory is a render node.
pub fn is_render_node(name: &str) -> (r: bool)
    ensures
        r == names_render_node(name@),
{
    let prefix: &str = "renderD";
    proof {
        reveal_strlit("renderD");
    }
    if name.unicode_len() < 7 {
        return false;
    }
    let mut i: usize = 0;
    while i < 7
        invariant
            i <= 7,
            prefix@.len() == 7,
            prefix@ == "renderD"@,
            name@.len() >= 7,
            forall|k: int| 0 <= k < i ==> name@[k] == prefix@[k],
        decreases 7 - i,
    {
        if name.get_char(i) != prefix.get_char(i) {
            assert(name@.take(7)[i as int] != prefix@[i as int]);
            return false;
        }
        i += 1;
    }
    assert(name@.take(7) =~= prefix@);
    true
}

/// The device of the first entry that is a render node and whose device is
/// known. Each entry has its name, and the device if it could be looked up.
pub fn discover_render_node_dev_t(entries: &Vec<(String, Option<u64>)>) -> (r: Option<u64>)
    ensures
        r matches Some(dev) ==> exists|i: int|
            {
                &&& 0 <= i < entries@.len()
                &&& names_render_node((#[trigger] entries@[i]).0@)
                &&& entries@[i].1 == Some(dev)
                &&& forall|k: int|
                    0 <= k < i ==> !(names_render_node((#[trigger] entries@[k]).0@)
                        && entries@[k].1 is Some)
            },
        r is None <==> forall|k: int|
            0 <= k < entries@.len() ==> !(names_render_node((#[trigger] entries@[k]).0@)
                && entries@[k].1 is Some),
{
    let mut i: usize = 0;
    while i < entries.len()
        invariant
            i <= entries@.len(),
            forall|k: int|
                0 <= k < i ==> !(names_render_node((#[trigger] entries@[k]).0@)
                    && entries@[k].1 is Some),
        decreases entries@.len() - i,
    {
        if is_render_node(entries[i].0.as_str()) {
            if let Some(dev) = entries[i].1 {
                assert(entries@[i as int].1 == Some(dev));
                return Some(dev);
            }
        }
        i += 1;
    }
    None
}

/// Whether an imported buffer is accepted: it has to have a plane.
pub fn dmabuf_imported(planes: usize) -> (r: bool)
    ensures
        r == (planes > 0),
{
    planes > 0
}

/// A render node is named by its prefix, whatever follows it.
pub proof fn lemma_prefix_names_it(rest: Seq<char>, name: Seq<char>)
    ensures
        names_render_node("renderD"@ + rest),
        names_render_node(name) <==> exists|tail: Seq<char>| name == #[trigger] ("renderD"@ + tail),
{
    reveal_strlit("renderD");
    assert(("renderD"@ + rest).take(7) =~= "renderD"@);
    if names_render_node(name) {
        assert(name =~= "renderD"@ + name.skip(7));
    }
    if exists|tail: Seq<char>| name == #[trigger] ("renderD"@ + tail) {
        let tail = choose|tail: Seq<char>| name == #[trigger] ("renderD"@ + tail);
        assert(name.take(7) =~= "renderD"@);
    }
}

} // verus!
