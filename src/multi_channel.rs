//! The channel store: named rasters, their priority and validation.

use vstd::prelude::*;
use vstd::string::StringExecFns;
use crate::error::SDFError;
use crate::raster::Raster;

verus! {

/// Per-channel weights, in percent. Reserved for blending; no algorithm
/// reads them yet.
pub struct ChannelWeights {
    pub alpha: u32,
    pub normal: u32,
    pub ao: u32,
    pub curvature: u32,
    pub height: u32,
    pub custom: Vec<(String, u32)>,
}

impl ChannelWeights {
    /// Custom weights name each channel at most once.
    pub open spec fn wf(&self) -> bool {
        forall|i: int, j: int|
            0 <= i < j < self.custom@.len() ==> (#[trigger] self.custom@[i]).0@ != (#[trigger] self.custom@[j]).0@
    }

    /// The default weights: 100, 70, 50, 30 and 40 percent for alpha,
    /// normal, ao, curvature and height, and no custom weight.
    pub open spec fn is_default(&self) -> bool {
        &&& self.alpha == 100 && self.normal == 70 && self.ao == 50 && self.curvature == 30 && self.height == 40
        &&& self.custom@.len() == 0
    }
}

impl Default for ChannelWeights {
    fn default() -> (r: Self)
        ensures
            r.is_default(),
            r.wf(),
    {
        ChannelWeights { alpha: 100, normal: 70, ao: 50, curvature: 30, height: 40, custom: Vec::new() }
    }
}

/// How channels would be combined. Reserved for blending; no algorithm reads
/// it yet.
#[derive(Debug, Clone, Copy, PartialEq, Eq)]
pub enum BlendMode {
    Multiply,
    Add,
    Screen,
    Overlay,
    SoftLight,
    HardLight,
}

impl Default for BlendMode {
    fn default() -> (r: Self)
        ensures
            r == BlendMode::Multiply,
    {
        BlendMode::Multiply
    }
}

/// A set of named rasters: the five fixed channels and any number of custom
/// ones, kept in the order in which they were first set.
pub struct MultiChannelInput {
    pub alpha: Option<Raster>,
    pub normal: Option<Raster>,
    pub ao: Option<Raster>,
    pub curvature: Option<Raster>,
    pub height: Option<Raster>,
    pub custom_channels: Vec<(String, Raster)>,
    pub weights: ChannelWeights,
    pub blend_mode: BlendMode,
}

/// `s` with the raster of `o`, if any, in front.
pub open spec fn prepend<T>(o: Option<T>, s: Seq<T>) -> Seq<T> {
    match o {
        Some(r) => seq![r] + s,
        None => s,
    }
}

/// `s` with `name` in front when `o` holds a value.
pub open spec fn prepend_name<T>(o: Option<T>, name: Seq<char>, s: Seq<Seq<char>>) -> Seq<Seq<char>> {
    match o {
        Some(_) => seq![name] + s,
        None => s,
    }
}

/// Every raster of `s` is well formed.
pub open spec fn all_wf(s: Seq<Raster>) -> bool {
    forall|i: int| 0 <= i < s.len() ==> (#[trigger] s[i]).wf()
}

/// One when the option holds a value, else zero.
pub open spec fn offset<T>(o: Option<T>) -> int {
    if o is Some { 1 } else { 0 }
}

/// Prepending keeps the rasters of the tail and adds the one of the option.
pub proof fn lemma_prepend(o: Option<Raster>, s: Seq<Raster>)
    ensures
        all_wf(prepend(o, s)) <==> (all_wf(s) && (o matches Some(r) ==> r.wf())),
        prepend(o, s).len() == s.len() + offset(o),
        forall|k: int| 0 <= k < s.len() ==> prepend(o, s)[k + offset(o)] == #[trigger] s[k],
        o matches Some(r) ==> prepend(o, s)[0] == r,
{
    if let Some(r) = o {
        let p = prepend(o, s);
        assert forall|k: int| 0 <= k < s.len() implies p[k + 1] == s[k] by {}
        if all_wf(p) {
            assert forall|k: int| 0 <= k < s.len() implies (#[trigger] s[k]).wf() by {
                assert(p[k + 1] == s[k]);
            }
            assert(p[0].wf());
        }
    }
}

/// `r` pairs each name of `names` with the raster at the same place in
/// `rasters`.
pub open spec fn lists(r: Seq<(&str, &Raster)>, names: Seq<Seq<char>>, rasters: Seq<Raster>) -> bool {
    &&& r.len() == names.len() == rasters.len()
    &&& forall|k: int| 0 <= k < r.len() ==> (#[trigger] r[k]).0@ == names[k] && *r[k].1 == rasters[k]
}

/// Appends the slot's raster, under `name`, when the slot is populated.
fn push_slot<'a>(
    r: &mut Vec<(&'a str, &'a Raster)>,
    name: &'a str,
    slot: &'a Option<Raster>,
    Ghost(names): Ghost<Seq<Seq<char>>>,
    Ghost(rasters): Ghost<Seq<Raster>>,
)
    requires
        lists(old(r)@, names, rasters),
    ensures
        lists(final(r)@, names + prepend_name(*slot, name@, Seq::empty()), rasters + prepend(*slot, Seq::empty())),
{
    let ghost old_r = r@;
    if let Some(img) = slot {
        r.push((name, img));
        proof {
            let nn = names + prepend_name(*slot, name@, Seq::empty());
            let gg = rasters + prepend(*slot, Seq::empty());
            assert forall|k: int| 0 <= k < r@.len() implies (#[trigger] r@[k]).0@ == nn[k] && *r@[k].1 == gg[k] by {
                if k < old_r.len() {
                    assert(r@[k] == old_r[k]);
                }
            }
        }
    } else {
        assert(names + prepend_name(*slot, name@, Seq::empty()) =~= names);
        assert(rasters + prepend(*slot, Seq::empty()) =~= rasters);
    }
}

/// Prepending to a sequence is prepending to the empty one, then appending.
pub proof fn lemma_prepend_split<T>(o: Option<T>, s: Seq<T>)
    ensures
        prepend(o, s) == prepend(o, Seq::<T>::empty()) + s,
{
    assert(prepend(o, s) =~= prepend(o, Seq::<T>::empty()) + s);
}

/// The same for names.
pub proof fn lemma_prepend_name_split<T>(o: Option<T>, name: Seq<char>, s: Seq<Seq<char>>)
    ensures
        prepend_name(o, name, s) == prepend_name(o, name, Seq::empty()) + s,
{
    assert(prepend_name(o, name, s) =~= prepend_name(o, name, Seq::empty()) + s);
}

/// The first raster of `s` whose size is not `w` by `h`.
pub open spec fn first_mismatch(s: Seq<Raster>, w: u32, h: u32) -> Option<Raster>
    decreases s.len(),
{
    if s.len() == 0 {
        None
    } else if s[0].width != w || s[0].height != h {
        Some(s[0])
    } else {
        first_mismatch(s.drop_first(), w, h)
    }
}

/// There is no mismatch exactly when every raster has the given size.
pub proof fn lemma_first_mismatch_none(s: Seq<Raster>, w: u32, h: u32)
    ensures
        first_mismatch(s, w, h) is None <==> forall|i: int|
            0 <= i < s.len() ==> (#[trigger] s[i]).width == w && s[i].height == h,
    decreases s.len(),
{
    if s.len() > 0 {
        lemma_first_mismatch_none(s.drop_first(), w, h);
        if first_mismatch(s, w, h) is None {
            assert forall|i: int| 0 <= i < s.len() implies (#[trigger] s[i]).width == w && s[i].height
                == h by {
                if i > 0 {
                    assert(s[i] == s.drop_first()[i - 1]);
                }
            }
        } else if s[0].width == w && s[0].height == h {
            let i = choose|i: int| 0 <= i < s.drop_first().len() && !((#[trigger] s.drop_first()[i]).width
                == w && s.drop_first()[i].height == h);
            assert(s[i + 1] == s.drop_first()[i]);
        }
    }
}

/// Looking for a mismatch behind an optional raster.
pub proof fn lemma_first_mismatch_prepend(o: Option<Raster>, s: Seq<Raster>, w: u32, h: u32)
    ensures
        first_mismatch(prepend(o, s), w, h) == match o {
            Some(r) => if r.width != w || r.height != h { Some(r) } else { first_mismatch(s, w, h) },
            None => first_mismatch(s, w, h),
        },
{
    if let Some(r) = o {
        assert(prepend(o, s).drop_first() =~= s);
    }
}

/// One of the five fixed channel names.
pub open spec fn is_fixed_channel(name: Seq<char>) -> bool {
    name == "alpha"@ || name == "normal"@ || name == "ao"@ || name == "curvature"@ || name == "height"@
}

/// The five fixed channel names differ from one another.
pub proof fn lemma_fixed_names_distinct()
    ensures
        "alpha"@ != "normal"@ && "alpha"@ != "ao"@ && "alpha"@ != "curvature"@ && "alpha"@ != "height"@,
        "normal"@ != "ao"@ && "normal"@ != "curvature"@ && "normal"@ != "height"@,
        "ao"@ != "curvature"@ && "ao"@ != "height"@ && "curvature"@ != "height"@,
{
    reveal_strlit("alpha");
    reveal_strlit("normal");
    reveal_strlit("ao");
    reveal_strlit("curvature");
    reveal_strlit("height");
    assert("alpha"@.len() != "normal"@.len());
    assert("alpha"@.len() != "ao"@.len());
    assert("alpha"@.len() != "curvature"@.len());
    assert("alpha"@.len() != "height"@.len());
    assert("normal"@.len() != "ao"@.len());
    assert("normal"@.len() != "curvature"@.len());
    assert("normal"@[0] != "height"@[0]);
    assert("ao"@.len() != "curvature"@.len());
    assert("ao"@.len() != "height"@.len());
    assert("curvature"@.len() != "height"@.len());
}

impl MultiChannelInput {
    /// The rasters of the custom channels, in order.
    pub open spec fn custom_rasters(&self) -> Seq<Raster> {
        self.custom_channels@.map_values(|c: (String, Raster)| c.1)
    }

    /// The names of the custom channels, in order.
    pub open spec fn custom_names(&self) -> Seq<Seq<char>> {
        self.custom_channels@.map_values(|c: (String, Raster)| c.0@)
    }

    /// Every populated channel in priority order: alpha, normal, ao,
    /// curvature, height, then the custom channels.
    pub open spec fn channels(&self) -> Seq<Raster> {
        prepend(self.alpha, prepend(self.normal, prepend(self.ao, prepend(self.curvature,
            prepend(self.height, self.custom_rasters())))))
    }

    /// The names of [`Self::channels`], in the same order.
    pub open spec fn channel_names(&self) -> Seq<Seq<char>> {
        prepend_name(self.alpha, "alpha"@, prepend_name(self.normal, "normal"@, prepend_name(self.ao,
            "ao"@, prepend_name(self.curvature, "curvature"@, prepend_name(self.height, "height"@,
            self.custom_names())))))
    }

    /// Every raster is well formed and custom names are unique.
    pub open spec fn wf(&self) -> bool {
        &&& all_wf(self.channels())
        &&& self.weights.wf()
        &&& forall|i: int, j: int|
            0 <= i < j < self.custom_channels@.len() ==> (#[trigger] self.custom_channels@[i]).0@
                != (#[trigger] self.custom_channels@[j]).0@
    }

    /// The first populated channel: it gives the reference dimensions.
    pub open spec fn reference(&self) -> Raster {
        self.channels()[0]
    }

    /// All populated channels share the reference dimensions.
    pub open spec fn dims_agree(&self) -> bool {
        forall|i: int|
            0 <= i < self.channels().len() ==> (#[trigger] self.channels()[i]).width
                == self.reference().width && self.channels()[i].height == self.reference().height
    }

    /// The raster of `slot`, when it is populated and its size differs from
    /// `w` by `h`.
    fn slot_mismatch(slot: &Option<Raster>, w: u32, h: u32) -> (r: Option<SDFError>)
        ensures
            r is None <==> !(slot matches Some(c) && (c.width != w || c.height != h)),
            r matches Some(e) ==> (slot matches Some(c) && e == SDFError::DimensionMismatch {
                expected: w,
                expected_h: h,
                actual_w: c.width,
                actual_h: c.height,
            }),
    {
        if let Some(c) = slot {
            if c.width != w || c.height != h {
                return Some(
                    SDFError::DimensionMismatch {
                        expected: w,
                        expected_h: h,
                        actual_w: c.width,
                        actual_h: c.height,
                    },
                );
            }
        }
        None
    }

    /// The size of the first populated channel.
    pub fn get_reference_dimensions(&self) -> (r: Result<(u32, u32), SDFError>)
        ensures
            self.channels().len() == 0 ==> (r matches Err(SDFError::ValidationError { details })
                && details@ == "No input channels available"@),
            self.channels().len() > 0 ==> r == Ok::<(u32, u32), SDFError>(
                (self.reference().width, self.reference().height),
            ),
    {
        proof {
            self.lemma_channels_front();
        }
        if let Some(img) = &self.alpha {
            return Ok((img.width, img.height));
        }
        if let Some(img) = &self.normal {
            return Ok((img.width, img.height));
        }
        if let Some(img) = &self.ao {
            return Ok((img.width, img.height));
        }
        if let Some(img) = &self.curvature {
            return Ok((img.width, img.height));
        }
        if let Some(img) = &self.height {
            return Ok((img.width, img.height));
        }
        if self.custom_channels.len() > 0 {
            let img = &self.custom_channels[0].1;
            return Ok((img.width, img.height));
        }
        Err(SDFError::ValidationError { details: String::from_str("No input channels available") })
    }

    /// The reference size; fails when no channel is populated.
    pub fn dimensions(&self) -> (r: Result<(u32, u32), SDFError>)
        ensures
            self.channels().len() == 0 ==> (r matches Err(SDFError::ValidationError { details })
                && details@ == "No input channels available"@),
            self.channels().len() > 0 ==> r == Ok::<(u32, u32), SDFError>(
                (self.reference().width, self.reference().height),
            ),
    {
        self.get_reference_dimensions()
    }

    /// The first populated channel in priority order.
    pub fn get_primary_channel(&self) -> (r: Result<&Raster, SDFError>)
        ensures
            self.channels().len() == 0 ==> (r matches Err(SDFError::ValidationError { details })
                && details@ == "No input channels available"@),
            self.channels().len() > 0 ==> (r matches Ok(c) && *c == self.reference()),
    {
        proof {
            self.lemma_channels_front();
        }
        if let Some(img) = &self.alpha {
            return Ok(img);
        }
        if let Some(img) = &self.normal {
            return Ok(img);
        }
        if let Some(img) = &self.ao {
            return Ok(img);
        }
        if let Some(img) = &self.curvature {
            return Ok(img);
        }
        if let Some(img) = &self.height {
            return Ok(img);
        }
        if self.custom_channels.len() > 0 {
            return Ok(&self.custom_channels[0].1);
        }
        Err(SDFError::ValidationError { details: String::from_str("No input channels available") })
    }

    /// Where the first channel comes from.
    proof fn lemma_channels_front(&self)
        ensures
            self.channels().len() == 0 <==> (self.alpha is None && self.normal is None && self.ao is None
                && self.curvature is None && self.height is None && self.custom_channels@.len() == 0),
            self.channels().len() > 0 ==> self.reference() == if let Some(r) = self.alpha {
                r
            } else if let Some(r) = self.normal {
                r
            } else if let Some(r) = self.ao {
                r
            } else if let Some(r) = self.curvature {
                r
            } else if let Some(r) = self.height {
                r
            } else {
                self.custom_channels@[0].1
            },
    {
        let s5 = self.custom_rasters();
        let s4 = prepend(self.height, s5);
        let s3 = prepend(self.curvature, s4);
        let s2 = prepend(self.ao, s3);
        let s1 = prepend(self.normal, s2);
        lemma_prepend(self.height, s5);
        lemma_prepend(self.curvature, s4);
        lemma_prepend(self.ao, s3);
        lemma_prepend(self.normal, s2);
        lemma_prepend(self.alpha, s1);
    }

    /// Checks that at least one channel is populated and that every channel
    /// has the reference size.
    pub fn validate(&self) -> (r: Result<(), SDFError>)
        ensures
            self.channels().len() == 0 ==> (r matches Err(SDFError::ValidationError { details })
                && details@ == "At least one input channel is required"@),
            self.channels().len() > 0 ==> match first_mismatch(
                self.channels(),
                self.reference().width,
                self.reference().height,
            ) {
                None => r is Ok,
                Some(c) => r == Err::<(), SDFError>(
                    SDFError::DimensionMismatch {
                        expected: self.reference().width,
                        expected_h: self.reference().height,
                        actual_w: c.width,
                        actual_h: c.height,
                    },
                ),
            },
            r is Ok <==> self.channels().len() > 0 && self.dims_agree(),
    {
        if self.alpha.is_none() && self.normal.is_none() && self.ao.is_none() && self.curvature.is_none()
            && self.height.is_none() && self.custom_channels.len() == 0 {
            proof {
                self.lemma_channels_front();
            }
            return Err(
                SDFError::ValidationError {
                    details: String::from_str("At least one input channel is required"),
                },
            );
        }
        let (w, h) = match self.get_reference_dimensions() {
            Ok(d) => d,
            Err(e) => {
                return Err(e);
            },
        };
        let ghost s5 = self.custom_rasters();
        let ghost s4 = prepend(self.height, s5);
        let ghost s3 = prepend(self.curvature, s4);
        let ghost s2 = prepend(self.ao, s3);
        let ghost s1 = prepend(self.normal, s2);
        proof {
            lemma_first_mismatch_none(self.channels(), w, h);
            lemma_first_mismatch_prepend(self.alpha, s1, w, h);
            lemma_first_mismatch_prepend(self.normal, s2, w, h);
            lemma_first_mismatch_prepend(self.ao, s3, w, h);
            lemma_first_mismatch_prepend(self.curvature, s4, w, h);
            lemma_first_mismatch_prepend(self.height, s5, w, h);
        }
        if let Some(e) = Self::slot_mismatch(&self.alpha, w, h) {
            return Err(e);
        }
        if let Some(e) = Self::slot_mismatch(&self.normal, w, h) {
            return Err(e);
        }
        if let Some(e) = Self::slot_mismatch(&self.ao, w, h) {
            return Err(e);
        }
        if let Some(e) = Self::slot_mismatch(&self.curvature, w, h) {
            return Err(e);
        }
        if let Some(e) = Self::slot_mismatch(&self.height, w, h) {
            return Err(e);
        }
        let mut i: usize = 0;
        assert(s5.subrange(0, s5.len() as int) =~= s5);
        while i < self.custom_channels.len()
            invariant
                self.channels().len() > 0,
                w == self.reference().width,
                h == self.reference().height,
                first_mismatch(self.channels(), w, h) == first_mismatch(s5, w, h),
                i <= s5.len(),
                s5 == self.custom_rasters(),
                first_mismatch(s5, w, h) == first_mismatch(s5.subrange(i as int, s5.len() as int), w, h),
            decreases s5.len() - i,
        {
            let c = &self.custom_channels[i].1;
            let ghost rest = s5.subrange(i as int, s5.len() as int);
            assert(rest[0] == *c);
            assert(rest.drop_first() =~= s5.subrange(i + 1, s5.len() as int));
            if c.width != w || c.height != h {
                proof {
                    lemma_first_mismatch_none(self.channels(), w, h);
                }
                return Err(
                    SDFError::DimensionMismatch {
                        expected: w,
                        expected_h: h,
                        actual_w: c.width,
                        actual_h: c.height,
                    },
                );
            }
            i += 1;
        }
        assert(s5.subrange(s5.len() as int, s5.len() as int).len() == 0);
        proof {
            lemma_first_mismatch_none(self.channels(), w, h);
        }
        Ok(())
    }

    pub fn has_alpha(&self) -> (r: bool)
        ensures
            r == self.alpha is Some,
    {
        self.alpha.is_some()
    }

    pub fn has_normal(&self) -> (r: bool)
        ensures
            r == self.normal is Some,
    {
        self.normal.is_some()
    }

    pub fn has_ao(&self) -> (r: bool)
        ensures
            r == self.ao is Some,
    {
        self.ao.is_some()
    }

    pub fn has_curvature(&self) -> (r: bool)
        ensures
            r == self.curvature is Some,
    {
        self.curvature.is_some()
    }

    pub fn has_height(&self) -> (r: bool)
        ensures
            r == self.height is Some,
    {
        self.height.is_some()
    }

    /// Stores `raster` under the channel `name`, replacing what was there.
    /// A name other than the five fixed ones names a custom channel; a new
    /// custom channel goes after the existing ones.
    pub fn set_channel(&mut self, name: &str, raster: Raster)
        requires
            old(self).wf(),
            raster.wf(),
        ensures
            final(self).wf(),
            final(self).alpha == if name@ == "alpha"@ { Some(raster) } else { old(self).alpha },
            final(self).normal == if name@ == "normal"@ { Some(raster) } else { old(self).normal },
            final(self).ao == if name@ == "ao"@ { Some(raster) } else { old(self).ao },
            final(self).curvature == if name@ == "curvature"@ {
                Some(raster)
            } else {
                old(self).curvature
            },
            final(self).height == if name@ == "height"@ { Some(raster) } else { old(self).height },
            is_fixed_channel(name@) ==> final(self).custom_channels@ == old(self).custom_channels@,
            !is_fixed_channel(name@) && old(self).custom_names().contains(name@) ==> (
                final(self).custom_names() == old(self).custom_names()
                && forall|i: int| 0 <= i < old(self).custom_names().len()
                    ==> #[trigger] final(self).custom_rasters()[i] == if old(self).custom_names()[i]
                    == name@ { raster } else { old(self).custom_rasters()[i] }
            ),
            !is_fixed_channel(name@) && !old(self).custom_names().contains(name@) ==> (
                final(self).custom_names() == old(self).custom_names().push(name@)
                && final(self).custom_rasters() == old(self).custom_rasters().push(raster)
            ),
    {
        proof {
            lemma_fixed_names_distinct();
            old(self).lemma_wf_parts();
        }
        let n = name.to_owned();
        if n == String::from_str("alpha") {
            self.alpha = Some(raster);
        } else if n == String::from_str("normal") {
            self.normal = Some(raster);
        } else if n == String::from_str("ao") {
            self.ao = Some(raster);
        } else if n == String::from_str("curvature") {
            self.curvature = Some(raster);
        } else if n == String::from_str("height") {
            self.height = Some(raster);
        } else {
            let ghost old_c = self.custom_channels@;
            let mut i: usize = 0;
            while i < self.custom_channels.len()
                invariant
                    self.custom_channels@ == old_c,
                    n@ == name@,
                    i <= old_c.len(),
                    forall|j: int| 0 <= j < i ==> (#[trigger] old_c[j]).0@ != name@,
                ensures
                    self.custom_channels@ == old_c,
                    i <= old_c.len(),
                    forall|j: int| 0 <= j < i ==> (#[trigger] old_c[j]).0@ != name@,
                    i < old_c.len() ==> old_c[i as int].0@ == name@,
                decreases old_c.len() - i,
            {
                if self.custom_channels[i].0 == n {
                    break;
                }
                i += 1;
            }
            if i < self.custom_channels.len() {
                self.custom_channels[i] = (n, raster);
                proof {
                    let c = self.custom_channels@;
                    assert(self.custom_names() =~= old(self).custom_names());
                    assert(old(self).custom_names()[i as int] == name@);
                    assert forall|j: int| 0 <= j < old(self).custom_names().len() implies
                        #[trigger] self.custom_rasters()[j] == if old(self).custom_names()[j]
                        == name@ { raster } else { old(self).custom_rasters()[j] } by {
                        if j != i && old(self).custom_names()[j] == name@ {
                            if j < i {
                                assert(old_c[j].0@ != name@);
                            } else {
                                assert(old_c[j].0@ != old_c[i as int].0@);
                            }
                        }
                    }
                    assert forall|a: int, b: int| 0 <= a < b < c.len() implies (#[trigger] c[a]).0@
                        != (#[trigger] c[b]).0@ by {
                        assert(old_c[a].0@ != old_c[b].0@);
                    }
                }
            } else {
                self.custom_channels.push((n, raster));
                proof {
                    let c = self.custom_channels@;
                    assert(self.custom_names() =~= old(self).custom_names().push(name@));
                    assert(self.custom_rasters() =~= old(self).custom_rasters().push(raster));
                    assert(!old(self).custom_names().contains(name@)) by {
                        if old(self).custom_names().contains(name@) {
                            let j = choose|j: int| 0 <= j < old(self).custom_names().len()
                                && old(self).custom_names()[j] == name@;
                            assert(old_c[j].0@ != name@);
                        }
                    }
                    assert forall|a: int, b: int| 0 <= a < b < c.len() implies (#[trigger] c[a]).0@
                        != (#[trigger] c[b]).0@ by {
                        if b == old_c.len() {
                            assert(old_c[a].0@ != name@);
                        } else {
                            assert(old_c[a].0@ != old_c[b].0@);
                        }
                    }
                }
            }
        }
        proof {
            self.lemma_wf_parts();
        }
    }

    /// Well-formedness, slot by slot.
    proof fn lemma_wf_parts(&self)
        ensures
            self.wf() <==> (
                (self.alpha matches Some(r) ==> r.wf())
                && (self.normal matches Some(r) ==> r.wf())
                && (self.ao matches Some(r) ==> r.wf())
                && (self.curvature matches Some(r) ==> r.wf())
                && (self.height matches Some(r) ==> r.wf())
                && all_wf(self.custom_rasters())
                && self.weights.wf()
                && forall|i: int, j: int|
                    0 <= i < j < self.custom_channels@.len() ==> (#[trigger] self.custom_channels@[i]).0@
                        != (#[trigger] self.custom_channels@[j]).0@
            ),
    {
        let s5 = self.custom_rasters();
        let s4 = prepend(self.height, s5);
        let s3 = prepend(self.curvature, s4);
        let s2 = prepend(self.ao, s3);
        let s1 = prepend(self.normal, s2);
        lemma_prepend(self.height, s5);
        lemma_prepend(self.curvature, s4);
        lemma_prepend(self.ao, s3);
        lemma_prepend(self.normal, s2);
        lemma_prepend(self.alpha, s1);
    }

    /// Every populated channel with its name, in priority order.
    pub fn iter_channels(&self) -> (r: Vec<(&str, &Raster)>)
        ensures
            lists(r@, self.channel_names(), self.channels()),
    {
        let mut r: Vec<(&str, &Raster)> = Vec::new();
        push_slot(&mut r, "alpha", &self.alpha, Ghost(Seq::empty()), Ghost(Seq::empty()));
        let ghost n1 = prepend_name(self.alpha, "alpha"@, Seq::empty());
        let ghost g1 = prepend(self.alpha, Seq::empty());
        push_slot(&mut r, "normal", &self.normal, Ghost(n1), Ghost(g1));
        let ghost n2 = n1 + prepend_name(self.normal, "normal"@, Seq::empty());
        let ghost g2 = g1 + prepend(self.normal, Seq::empty());
        push_slot(&mut r, "ao", &self.ao, Ghost(n2), Ghost(g2));
        let ghost n3 = n2 + prepend_name(self.ao, "ao"@, Seq::empty());
        let ghost g3 = g2 + prepend(self.ao, Seq::empty());
        push_slot(&mut r, "curvature", &self.curvature, Ghost(n3), Ghost(g3));
        let ghost n4 = n3 + prepend_name(self.curvature, "curvature"@, Seq::empty());
        let ghost g4 = g3 + prepend(self.curvature, Seq::empty());
        push_slot(&mut r, "height", &self.height, Ghost(n4), Ghost(g4));
        let ghost named_n = n4 + prepend_name(self.height, "height"@, Seq::empty());
        let ghost named = g4 + prepend(self.height, Seq::empty());
        let mut i: usize = 0;
        while i < self.custom_channels.len()
            invariant
                i <= self.custom_channels@.len(),
                lists(
                    r@,
                    named_n + self.custom_names().take(i as int),
                    named + self.custom_rasters().take(i as int),
                ),
            decreases self.custom_channels@.len() - i,
        {
            let ghost old_r = r@;
            r.push((self.custom_channels[i].0.as_str(), &self.custom_channels[i].1));
            proof {
                let nn = named_n + self.custom_names().take(i as int);
                let gg = named + self.custom_rasters().take(i as int);
                assert(named_n + self.custom_names().take(i + 1) =~= nn.push(self.custom_names()[i as int]));
                assert(named + self.custom_rasters().take(i + 1) =~= gg.push(self.custom_rasters()[i as int]));
                assert(lists(r@, nn.push(self.custom_names()[i as int]), gg.push(self.custom_rasters()[i as int])))
                    by {
                    assert forall|k: int| 0 <= k < r@.len() implies (#[trigger] r@[k]).0@ == nn.push(
                        self.custom_names()[i as int],
                    )[k] && *r@[k].1 == gg.push(self.custom_rasters()[i as int])[k] by {
                        if k < old_r.len() {
                            assert(r@[k] == old_r[k]);
                        }
                    }
                }
            }
            i += 1;
        }
        proof {
            assert(self.custom_names().take(self.custom_names().len() as int) =~= self.custom_names());
            assert(self.custom_rasters().take(self.custom_rasters().len() as int) =~= self.custom_rasters());
            self.lemma_channels_split();
        }
        r
    }

    /// The channel list is the populated fixed slots, in order, then the
    /// custom channels.
    proof fn lemma_channels_split(&self)
        ensures
            self.channels() == prepend(self.alpha, Seq::empty()) + prepend(self.normal, Seq::empty()) + prepend(
                self.ao,
                Seq::empty(),
            ) + prepend(self.curvature, Seq::empty()) + prepend(self.height, Seq::empty())
                + self.custom_rasters(),
            self.channel_names() == prepend_name(self.alpha, "alpha"@, Seq::empty()) + prepend_name(
                self.normal,
                "normal"@,
                Seq::empty(),
            ) + prepend_name(self.ao, "ao"@, Seq::empty()) + prepend_name(self.curvature, "curvature"@, Seq::empty())
                + prepend_name(self.height, "height"@, Seq::empty()) + self.custom_names(),
    {
        let e = Seq::<Raster>::empty();
        let (q_alpha, q_normal, q_ao, q_curv, q_height) = (
            prepend(self.alpha, e),
            prepend(self.normal, e),
            prepend(self.ao, e),
            prepend(self.curvature, e),
            prepend(self.height, e),
        );
        let c5 = self.custom_rasters();
        lemma_prepend_split(self.height, c5);
        let c4 = q_height + c5;
        lemma_prepend_split(self.curvature, c4);
        let c3 = q_curv + c4;
        lemma_prepend_split(self.ao, c3);
        let c2 = q_ao + c3;
        lemma_prepend_split(self.normal, c2);
        let c1 = q_normal + c2;
        lemma_prepend_split(self.alpha, c1);
        assert(self.channels() == q_alpha + c1);
        vstd::seq_lib::lemma_concat_associative(q_curv, q_height, c5);
        vstd::seq_lib::lemma_concat_associative(q_ao, q_curv + q_height, c5);
        vstd::seq_lib::lemma_concat_associative(q_ao, q_curv, q_height);
        vstd::seq_lib::lemma_concat_associative(q_normal, q_ao + q_curv + q_height, c5);
        vstd::seq_lib::lemma_concat_associative(q_normal, q_ao + q_curv, q_height);
        vstd::seq_lib::lemma_concat_associative(q_normal, q_ao, q_curv);
        vstd::seq_lib::lemma_concat_associative(q_alpha, q_normal + q_ao + q_curv + q_height, c5);
        vstd::seq_lib::lemma_concat_associative(q_alpha, q_normal + q_ao + q_curv, q_height);
        vstd::seq_lib::lemma_concat_associative(q_alpha, q_normal + q_ao, q_curv);
        vstd::seq_lib::lemma_concat_associative(q_alpha, q_normal, q_ao);
        self.lemma_names_split();
    }

    /// The same split for the names.
    proof fn lemma_names_split(&self)
        ensures
            self.channel_names() == prepend_name(self.alpha, "alpha"@, Seq::empty()) + prepend_name(
                self.normal,
                "normal"@,
                Seq::empty(),
            ) + prepend_name(self.ao, "ao"@, Seq::empty()) + prepend_name(self.curvature, "curvature"@, Seq::empty())
                + prepend_name(self.height, "height"@, Seq::empty()) + self.custom_names(),
    {
        let f = Seq::<Seq<char>>::empty();
        let (q_alpha, q_normal, q_ao, q_curv, q_height) = (
            prepend_name(self.alpha, "alpha"@, f),
            prepend_name(self.normal, "normal"@, f),
            prepend_name(self.ao, "ao"@, f),
            prepend_name(self.curvature, "curvature"@, f),
            prepend_name(self.height, "height"@, f),
        );
        let c5 = self.custom_names();
        lemma_prepend_name_split(self.height, "height"@, c5);
        let c4 = q_height + c5;
        lemma_prepend_name_split(self.curvature, "curvature"@, c4);
        let c3 = q_curv + c4;
        lemma_prepend_name_split(self.ao, "ao"@, c3);
        let c2 = q_ao + c3;
        lemma_prepend_name_split(self.normal, "normal"@, c2);
        let c1 = q_normal + c2;
        lemma_prepend_name_split(self.alpha, "alpha"@, c1);
        assert(self.channel_names() == q_alpha + c1);
        vstd::seq_lib::lemma_concat_associative(q_curv, q_height, c5);
        vstd::seq_lib::lemma_concat_associative(q_ao, q_curv + q_height, c5);
        vstd::seq_lib::lemma_concat_associative(q_ao, q_curv, q_height);
        vstd::seq_lib::lemma_concat_associative(q_normal, q_ao + q_curv + q_height, c5);
        vstd::seq_lib::lemma_concat_associative(q_normal, q_ao + q_curv, q_height);
        vstd::seq_lib::lemma_concat_associative(q_normal, q_ao, q_curv);
        vstd::seq_lib::lemma_concat_associative(q_alpha, q_normal + q_ao + q_curv + q_height, c5);
        vstd::seq_lib::lemma_concat_associative(q_alpha, q_normal + q_ao + q_curv, q_height);
        vstd::seq_lib::lemma_concat_associative(q_alpha, q_normal + q_ao, q_curv);
        vstd::seq_lib::lemma_concat_associative(q_alpha, q_normal, q_ao);
    }

    /// An empty store with default weights and blend mode.
    pub fn new() -> (r: Self)
        ensures
            r.channels().len() == 0,
            r.custom_channels@.len() == 0,
            r.weights.is_default(),
            r.blend_mode == BlendMode::Multiply,
            r.wf(),
    {
        MultiChannelInput {
            alpha: None,
            normal: None,
            ao: None,
            curvature: None,
            height: None,
            custom_channels: Vec::new(),
            weights: ChannelWeights::default(),
            blend_mode: BlendMode::default(),
        }
    }

    /// A store whose only channel is the alpha raster of `image`.
    pub fn from_alpha(image: image::DynamicImage) -> (r: Self)
        ensures
            r.wf(),
            r.alpha is Some,
            r.channels().len() == 1,
    {
        let mut input = Self::new();
        input.alpha = Some(Raster::from_image(&image));
        input
    }

    /// This store with its alpha channel set from `image`.
    pub fn with_alpha(self, image: image::DynamicImage) -> (r: Self)
        requires
            self.wf(),
        ensures
            r.wf(),
            r.alpha is Some,
            r.normal == self.normal && r.ao == self.ao && r.curvature == self.curvature,
            r.height == self.height && r.custom_channels == self.custom_channels,
    {
        let mut s = self;
        s.alpha = Some(Raster::from_image(&image));
        proof {
            let rest = prepend(s.normal, prepend(s.ao, prepend(s.curvature, prepend(s.height,
                s.custom_rasters()))));
            lemma_prepend(self.alpha, rest);
            lemma_prepend(s.alpha, rest);
        }
        s
    }
}

impl Default for MultiChannelInput {
    fn default() -> (r: Self)
        ensures
            r.channels().len() == 0,
            r.custom_channels@.len() == 0,
            r.weights.is_default(),
            r.blend_mode == BlendMode::Multiply,
            r.wf(),
    {
        Self::new()
    }
}

} // verus!
