//! Icon directories of a theme, as its `index.theme` file declares them, and
//! how well a directory serves a requested size and scale.
use vstd::prelude::*;
use vstd::string::StringSliceAdditionalSpecFns;
use crate::bytes::bytes_eq;

verus! {

/// How a directory's icons scale.
#[derive(Debug, Clone, Copy, PartialEq, Eq, Structural)]
pub enum DirectoryType {
    Fixed,
    Scalable,
    Threshold,
}

impl Default for DirectoryType {
    /// A directory without a `Type` key is a `Threshold` directory.
    fn default() -> (r: Self)
        ensures
            r == DirectoryType::Threshold,
    {
        DirectoryType::Threshold
    }
}

/// The type that a `Type` value names: `Fixed`, `Scalable`, and `Threshold`
/// for anything else.
pub open spec fn directory_type_of(value: Seq<u8>) -> DirectoryType {
    if value == "Fixed".spec_bytes() {
        DirectoryType::Fixed
    } else if value == "Scalable".spec_bytes() {
        DirectoryType::Scalable
    } else {
        DirectoryType::Threshold
    }
}

impl<'a> From<&'a [u8]> for DirectoryType {
    /// The type that the `Type` value `value` names.
    fn from(value: &'a [u8]) -> (r: DirectoryType) {
        if bytes_eq(value, "Fixed".as_bytes()) {
            DirectoryType::Fixed
        } else if bytes_eq(value, "Scalable".as_bytes()) {
            DirectoryType::Scalable
        } else {
            DirectoryType::Threshold
        }
    }
}

impl<'a> vstd::std_specs::convert::FromSpecImpl<&'a [u8]> for DirectoryType {
    open spec fn obeys_from_spec() -> bool {
        true
    }

    open spec fn from_spec(value: &'a [u8]) -> DirectoryType {
        directory_type_of(value@)
    }
}

/// A directory of a theme, as values.
pub struct DirectoryView {
    pub name: Seq<char>,
    pub size: i16,
    pub scale: i16,
    pub type_: DirectoryType,
    pub maxsize: i16,
    pub minsize: i16,
    pub threshold: i16,
}

/// A directory of a theme: its path below the theme's directory, and the
/// sizes of the icons it holds.
#[derive(Debug)]
pub struct Directory<'a> {
    pub name: &'a str,
    pub size: i16,
    pub scale: i16,
    pub type_: DirectoryType,
    pub maxsize: i16,
    pub minsize: i16,
    pub threshold: i16,
}

impl<'a> View for Directory<'a> {
    type V = DirectoryView;

    open spec fn view(&self) -> DirectoryView {
        DirectoryView {
            name: self.name@,
            size: self.size,
            scale: self.scale,
            type_: self.type_,
            maxsize: self.maxsize,
            minsize: self.minsize,
            threshold: self.threshold,
        }
    }
}

/// Whether directory `d` holds icons of exactly the requested size at the
/// requested scale: the scale must be the same, and the size equal to a
/// `Fixed` directory's size, within `MinSize..=MaxSize` of a `Scalable` one,
/// or within `Threshold` of a `Threshold` one's size.
pub open spec fn match_size_spec(d: DirectoryView, size: int, scale: int) -> bool {
    d.scale == scale && match d.type_ {
        DirectoryType::Fixed => d.size == size,
        DirectoryType::Scalable => d.minsize <= size <= d.maxsize,
        DirectoryType::Threshold => d.size - d.threshold <= size <= d.size + d.threshold,
    }
}

/// How far the icons of `d` are from the requested size at the requested
/// scale, in pixels: `0` where they can serve it, the gap to the nearest size
/// they hold otherwise.
pub open spec fn size_distance_spec(d: DirectoryView, size: int, scale: int) -> int {
    let wanted = size * scale;
    match d.type_ {
        DirectoryType::Fixed => {
            let have = d.size * d.scale;
            if have >= wanted {
                have - wanted
            } else {
                wanted - have
            }
        },
        DirectoryType::Scalable => {
            if wanted < d.minsize * d.scale {
                d.minsize * d.scale - wanted
            } else if wanted > d.maxsize * d.scale {
                wanted - d.maxsize * d.scale
            } else {
                0
            }
        },
        DirectoryType::Threshold => {
            if wanted < (d.size - d.threshold) * d.scale {
                d.minsize * d.scale - wanted
            } else if wanted > (d.size + d.threshold) * d.scale {
                wanted - d.maxsize * d.scale
            } else {
                0
            }
        },
    }
}

/// The distance as an `i16`: `i16::MAX` stands for a distance that an `i16`
/// cannot hold (and for `i16::MAX` itself), so that a caller can leave such a
/// directory out.
pub open spec fn clamped_distance(x: int) -> i16 {
    if -(i16::MAX as int) <= x < i16::MAX {
        x as i16
    } else {
        i16::MAX
    }
}

fn mul_i16(a: i16, b: i16) -> (r: i64)
    ensures
        r == a * b,
        -1073709056 <= r <= 1073741824,
{
    proof {
        assert(-32768 <= a <= 32767 && -32768 <= b <= 32767 ==> -1073709056 <= a * b
            <= 1073741824) by (nonlinear_arith);
    }
    (a as i64) * (b as i64)
}

fn mul_u16(a: u16, b: u16) -> (r: i64)
    ensures
        r == a * b,
        0 <= r <= 4294836225,
{
    proof {
        assert(0 <= a <= 65535 && 0 <= b <= 65535 ==> 0 <= a * b <= 4294836225) by (nonlinear_arith);
    }
    (a as i64) * (b as i64)
}

impl<'a> Directory<'a> {
    /// Whether this directory holds icons of exactly `size` at `scale`.
    pub fn match_size(&self, size: u16, scale: u16) -> (r: bool)
        ensures
            r == match_size_spec(self@, size as int, scale as int),
    {
        let size = size as i32;
        if self.scale as i32 != scale as i32 {
            false
        } else {
            match self.type_ {
                DirectoryType::Fixed => self.size as i32 == size,
                DirectoryType::Scalable => self.minsize as i32 <= size && size
                    <= self.maxsize as i32,
                DirectoryType::Threshold => {
                    (self.size as i32) - (self.threshold as i32) <= size && size <= (
                    self.size as i32) + (self.threshold as i32)
                },
            }
        }
    }

    /// How far this directory's icons are from `size` at `scale`, with
    /// `i16::MAX` for a distance that an `i16` cannot hold.
    pub fn directory_size_distance(&self, size: u16, scale: u16) -> (r: i16)
        ensures
            r == clamped_distance(size_distance_spec(self@, size as int, scale as int)),
            r > i16::MIN,
    {
        let wanted = mul_u16(size, scale);
        let d: i64 = match self.type_ {
            DirectoryType::Fixed => {
                let have = mul_i16(self.size, self.scale);
                if have >= wanted {
                    have - wanted
                } else {
                    wanted - have
                }
            },
            DirectoryType::Scalable => {
                let lo = mul_i16(self.minsize, self.scale);
                let hi = mul_i16(self.maxsize, self.scale);
                if wanted < lo {
                    lo - wanted
                } else if wanted > hi {
                    wanted - hi
                } else {
                    0
                }
            },
            DirectoryType::Threshold => {
                let lo_size = (self.size as i64) - (self.threshold as i64);
                let hi_size = (self.size as i64) + (self.threshold as i64);
                let lo = mul_i64_small(lo_size, self.scale);
                let hi = mul_i64_small(hi_size, self.scale);
                if wanted < lo {
                    mul_i16(self.minsize, self.scale) - wanted
                } else if wanted > hi {
                    wanted - mul_i16(self.maxsize, self.scale)
                } else {
                    0
                }
            },
        };
        if -32767 <= d && d < 32767 {
            d as i16
        } else {
            i16::MAX
        }
    }
}

fn mul_i64_small(a: i64, b: i16) -> (r: i64)
    requires
        -65536 <= a <= 65536,
    ensures
        r == a * b,
        -2147483648 <= r <= 2147483648,
{
    proof {
        assert(-65536 <= a <= 65536 && -32768 <= b <= 32767 ==> -2147483648 <= a * b
            <= 2147483648) by (nonlinear_arith);
    }
    a * (b as i64)
}


/// A directory that holds icons of exactly the requested size is at distance
/// 0 from it, the least distance there is.
pub proof fn law_exact_match_distance_zero(d: DirectoryView, size: int, scale: int)
    requires
        scale >= 0,
    ensures
        match_size_spec(d, size, scale) ==> size_distance_spec(d, size, scale) == 0,
{
    if match_size_spec(d, size, scale) {
        let s = d.scale as int;
        assert(s == scale);
        match d.type_ {
            DirectoryType::Fixed => {},
            DirectoryType::Scalable => {
                let lo = d.minsize as int;
                let hi = d.maxsize as int;
                assert(lo * s <= size * s) by (nonlinear_arith)
                    requires
                        lo <= size,
                        s >= 0,
                ;
                assert(size * s <= hi * s) by (nonlinear_arith)
                    requires
                        size <= hi,
                        s >= 0,
                ;
            },
            DirectoryType::Threshold => {
                let lo = d.size - d.threshold;
                let hi = d.size + d.threshold;
                assert(lo * s <= size * s) by (nonlinear_arith)
                    requires
                        lo <= size,
                        s >= 0,
                ;
                assert(size * s <= hi * s) by (nonlinear_arith)
                    requires
                        size <= hi,
                        s >= 0,
                ;
            },
        }
    }
}

} // verus!
