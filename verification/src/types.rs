//! Pixel formats, and where the land socket lives.

use vstd::prelude::*;

verus! {

/// A packed four-byte pixel format.
#[derive(Clone, Copy, Debug, PartialEq, Eq, Structural)]
pub enum DrmFormat {
    Xrgb8888,
    Argb8888,
    Xbgr8888,
    Abgr8888,
}

impl DrmFormat {
    pub open spec fn code(self) -> u32 {
        match self {
            DrmFormat::Xrgb8888 => crate::proto::DRM_FORMAT_XRGB8888,
            DrmFormat::Argb8888 => crate::proto::DRM_FORMAT_ARGB8888,
            DrmFormat::Xbgr8888 => crate::proto::DRM_FORMAT_XBGR8888,
            DrmFormat::Abgr8888 => crate::proto::DRM_FORMAT_ABGR8888,
        }
    }

    pub open spec fn text(self) -> Seq<char> {
        match self {
            DrmFormat::Xrgb8888 => "XRGB8888"@,
            DrmFormat::Argb8888 => "ARGB8888"@,
            DrmFormat::Xbgr8888 => "XBGR8888"@,
            DrmFormat::Abgr8888 => "ABGR8888"@,
        }
    }

    /// The format that a fourcc stands for.
    pub fn from_fourcc(code: u32) -> (r: Option<Self>)
        ensures
            forall|f: DrmFormat| r == Some(f) <==> f.code() == code,
            r is None <==> forall|f: DrmFormat| #[trigger] f.code() != code,
    {
        proof {
            assert(DrmFormat::Xrgb8888.code() == 0x34325258);
            assert(DrmFormat::Argb8888.code() == 0x34325241);
            assert(DrmFormat::Xbgr8888.code() == 0x34324258);
            assert(DrmFormat::Abgr8888.code() == 0x34324241);
        }
        match code {
            0x34325258 => Some(DrmFormat::Xrgb8888),
            0x34325241 => Some(DrmFormat::Argb8888),
            0x34324258 => Some(DrmFormat::Xbgr8888),
            0x34324241 => Some(DrmFormat::Abgr8888),
            _ => None,
        }
    }

    pub fn as_u32(self) -> (r: u32)
        ensures
            r == self.code(),
    {
        match self {
            DrmFormat::Xrgb8888 => crate::proto::DRM_FORMAT_XRGB8888,
            DrmFormat::Argb8888 => crate::proto::DRM_FORMAT_ARGB8888,
            DrmFormat::Xbgr8888 => crate::proto::DRM_FORMAT_XBGR8888,
            DrmFormat::Abgr8888 => crate::proto::DRM_FORMAT_ABGR8888,
        }
    }

    /// Bytes per pixel.
    pub fn bpp(&self) -> (r: u32)
        ensures
            r == 4,
    {
        match self {
            DrmFormat::Xrgb8888 | DrmFormat::Argb8888 | DrmFormat::Xbgr8888
            | DrmFormat::Abgr8888 => 4,
        }
    }

    /// The name of the format.
    pub fn to_text(&self) -> (r: &'static str)
        ensures
            r@ == self.text(),
    {
        match self {
            DrmFormat::Xrgb8888 => "XRGB8888",
            DrmFormat::Argb8888 => "ARGB8888",
            DrmFormat::Xbgr8888 => "XBGR8888",
            DrmFormat::Abgr8888 => "ABGR8888",
        }
    }
}

/// Where the land socket is by default. `configured` is the value of
/// `LAND_SOCKET`, if that is set.
pub fn default_socket_path(configured: Option<String>, android: bool) -> (r: String)
    ensures
        r@ == (match configured {
            Some(path) => path@,
            None => if android {
                "/dev/socket/land.sock"@
            } else {
                "/run/land.sock"@
            },
        }),
{
    match configured {
        Some(path) => path,
        None => if android {
            "/dev/socket/land.sock".to_owned()
        } else {
            "/run/land.sock".to_owned()
        },
    }
}

/// A format is named by the letters of its code: the code begins with the first
/// two letters of the name. No two formats have the same code.
pub proof fn lemma_names_follow_codes(f: DrmFormat, g: DrmFormat)
    ensures
        f.text().len() == 8,
        crate::wire::le_bytes(f.code())[0] == f.text()[0] as u8,
        crate::wire::le_bytes(f.code())[1] == f.text()[1] as u8,
        f.code() == g.code() <==> f == g,
{
    reveal_strlit("XRGB8888");
    reveal_strlit("ARGB8888");
    reveal_strlit("XBGR8888");
    reveal_strlit("ABGR8888");
}

} // verus!
