//! Which image files to look for when detecting a texture's channels.

use vstd::prelude::*;
use vstd::string::StringExecFns;

verus! {

/// The channel probed by the `k`-th pattern (three patterns per channel).
pub open spec fn pattern_channel(k: int) -> Seq<char> {
    if k / 3 == 0 {
        "alpha"@
    } else if k / 3 == 1 {
        "normal"@
    } else if k / 3 == 2 {
        "ao"@
    } else {
        "curvature"@
    }
}

/// The file-name suffix of the `k`-th pattern.
pub open spec fn pattern_suffix(k: int) -> Seq<char> {
    if k == 0 {
        "diffuse"@
    } else if k == 1 {
        "alpha"@
    } else if k == 2 {
        "mask"@
    } else if k == 3 {
        "normal"@
    } else if k == 4 {
        "norm"@
    } else if k == 5 {
        "n"@
    } else if k == 6 {
        "ao"@
    } else if k == 7 {
        "ambient"@
    } else if k == 8 {
        "occlusion"@
    } else if k == 9 {
        "curvature"@
    } else if k == 10 {
        "curve"@
    } else {
        "c"@
    }
}

/// The `e`-th image extension tried, in order.
pub open spec fn probe_extension(e: int) -> Seq<char> {
    if e == 0 {
        "png"@
    } else if e == 1 {
        "jpg"@
    } else if e == 2 {
        "jpeg"@
    } else if e == 3 {
        "tga"@
    } else {
        "bmp"@
    }
}

/// `basename_suffix.ext`.
pub open spec fn probe_file(basename: Seq<char>, suffix: Seq<char>, ext: Seq<char>) -> Seq<char> {
    basename + "_"@ + suffix + "."@ + ext
}

/// One probe pattern: the channel it fills and its candidate file names, in
/// the order in which they are tried.
pub struct ProbePattern {
    pub channel: String,
    pub files: Vec<String>,
}

fn probe_name(basename: &str, suffix: &str, ext: &str) -> (r: String)
    ensures
        r@ == probe_file(basename@, suffix@, ext@),
{
    String::from_str(basename).concat("_").concat(suffix).concat(".").concat(ext)
}

fn probe_pattern(basename: &str, channel: &str, suffix: &str) -> (r: ProbePattern)
    ensures
        r.channel@ == channel@,
        r.files@.len() == 5,
        forall|e: int| 0 <= e < 5 ==> (#[trigger] r.files@[e])@ == probe_file(basename@, suffix@, probe_extension(e)),
{
    let mut files: Vec<String> = Vec::new();
    files.push(probe_name(basename, suffix, "png"));
    files.push(probe_name(basename, suffix, "jpg"));
    files.push(probe_name(basename, suffix, "jpeg"));
    files.push(probe_name(basename, suffix, "tga"));
    files.push(probe_name(basename, suffix, "bmp"));
    ProbePattern { channel: String::from_str(channel), files }
}

/// The files to look for when detecting the channels of `basename`: twelve
/// patterns, three per channel (alpha, normal, ao, curvature), each with
/// five extensions. For each pattern the first file that exists is loaded
/// into its channel; a later pattern of the same channel replaces an
/// earlier one.
pub fn channel_probe_plan(basename: &str) -> (r: Vec<ProbePattern>)
    ensures
        r@.len() == 12,
        forall|k: int|
            0 <= k < 12 ==> (#[trigger] r@[k]).channel@ == pattern_channel(k) && r@[k].files@.len() == 5
                && forall|e: int| 0 <= e < 5 ==> (#[trigger] r@[k].files@[e])@ == probe_file(
                basename@,
                pattern_suffix(k),
                probe_extension(e),
            ),
{
    let mut r: Vec<ProbePattern> = Vec::new();
    r.push(probe_pattern(basename, "alpha", "diffuse"));
    r.push(probe_pattern(basename, "alpha", "alpha"));
    r.push(probe_pattern(basename, "alpha", "mask"));
    r.push(probe_pattern(basename, "normal", "normal"));
    r.push(probe_pattern(basename, "normal", "norm"));
    r.push(probe_pattern(basename, "normal", "n"));
    r.push(probe_pattern(basename, "ao", "ao"));
    r.push(probe_pattern(basename, "ao", "ambient"));
    r.push(probe_pattern(basename, "ao", "occlusion"));
    r.push(probe_pattern(basename, "curvature", "curvature"));
    r.push(probe_pattern(basename, "curvature", "curve"));
    r.push(probe_pattern(basename, "curvature", "c"));
    r
}

} // verus!
