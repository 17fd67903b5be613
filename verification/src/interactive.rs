//! The decision rules of the interactive triage of a report.
//!
//! The triage presents similar pairs to a human and acts on a one-letter
//! choice. This module holds the pure rules: the letters and their
//! meaning, how a pair of similar images is ordered and bucketed by
//! dimensions and size, and which action each choice triggers in each
//! bucket. The surrounding prompting, viewing and file moving is I/O and
//! lives outside the library.

use vstd::prelude::*;

verus! {

use crate::files::ExtClass;

/// The operator's choice for one similar pair.
#[derive(Clone, Copy, PartialEq, Eq, Structural, Debug)]
pub enum Choice {
    Yes,
    No,
    First,
    Second,
    KeepBoth,
    FalsePositive,
}

/// The letter standing for a choice.
pub open spec fn letter_of(c: Choice) -> char {
    match c {
        Choice::Yes => 'y',
        Choice::No => 'n',
        Choice::First => '1',
        Choice::Second => '2',
        Choice::KeepBoth => 'k',
        Choice::FalsePositive => 'f',
    }
}

/// The choice a letter stands for, in either case; `default` for any
/// other letter.
pub open spec fn choice_of_letter(c: char, default: Choice) -> Choice {
    match c {
        'y' | 'Y' => Choice::Yes,
        'n' | 'N' => Choice::No,
        '1' => Choice::First,
        '2' => Choice::Second,
        'k' | 'K' => Choice::KeepBoth,
        'f' | 'F' => Choice::FalsePositive,
        _ => default,
    }
}

impl Choice {
    /// The letter standing for this choice.
    pub fn to_letter(&self) -> (c: char)
        ensures
            c == letter_of(*self),
    {
        match self {
            Self::Yes => 'y',
            Self::No => 'n',
            Self::First => '1',
            Self::Second => '2',
            Self::KeepBoth => 'k',
            Self::FalsePositive => 'f',
        }
    }

    /// The choice a letter stands for, in either case; `default` for
    /// any other letter.
    pub fn from_letter(c: char, default: Choice) -> (r: Self)
        ensures
            r == choice_of_letter(c, default),
    {
        match c {
            'y' | 'Y' => Self::Yes,
            'n' | 'N' => Self::No,
            '1' => Self::First,
            '2' => Self::Second,
            'k' | 'K' => Self::KeepBoth,
            'f' | 'F' => Self::FalsePositive,
            _ => default,
        }
    }

    /// Every choice, in presentation order.
    pub fn each() -> (r: [Self; 6])
        ensures
            r@.len() == 6,
            r@[0] == Choice::Yes,
            r@[1] == Choice::No,
            r@[2] == Choice::First,
            r@[3] == Choice::Second,
            r@[4] == Choice::KeepBoth,
            r@[5] == Choice::FalsePositive,
    {
        [Self::Yes, Self::No, Self::First, Self::Second, Self::KeepBoth, Self::FalsePositive]
    }
}

/// A choice's letter always reads back as that choice, whatever the
/// default.
pub proof fn lemma_choice_letter_round_trip(c: Choice, default: Choice)
    ensures
        choice_of_letter(letter_of(c), default) == c,
{
}

/// What a typed answer line means: an empty line or a line starting with
/// a newline keeps the default; otherwise the first letter decides, with
/// `No` for an unknown letter.
pub open spec fn answer_meaning(ans: Seq<char>, default: Choice) -> Choice {
    if ans.len() == 0 {
        default
    } else if ans[0] == '\n' {
        default
    } else {
        choice_of_letter(ans[0], Choice::No)
    }
}

/// Interpret a typed answer line.
pub fn interpret_answer(ans: &str, default: Choice) -> (r: Choice)
    ensures
        r == answer_meaning(ans@, default),
{
    let n = ans.unicode_len();
    if n == 0 {
        default
    } else {
        let c = ans.get_char(0);
        if c == '\n' {
            default
        } else {
            Choice::from_letter(c, Choice::No)
        }
    }
}

/// The buckets a similar pair is presented under.
#[derive(Clone, Copy, PartialEq, Eq, Structural, Debug)]
pub enum PairKind {
    /// Two animations.
    Anims,
    /// Two videos.
    Videos,
    /// Two images of the same dimensions; the lighter file comes first.
    SameDims,
    /// Two images, one strictly smaller both ways; the smaller comes
    /// first.
    DiffDims,
    /// Two images that fit neither of the previous buckets.
    OtherImages,
    /// Anything else: the pair is not presented.
    Skipped,
}

/// The bucket of a pair of extensions: both animations, both videos,
/// both still images, or nothing worth presenting.
pub open spec fn pair_class_of(c1: ExtClass, c2: ExtClass) -> PairKind {
    if c1 == ExtClass::Anim && c2 == ExtClass::Anim {
        PairKind::Anims
    } else if c1 == ExtClass::Video && c2 == ExtClass::Video {
        PairKind::Videos
    } else if c1 == ExtClass::Image && c2 == ExtClass::Image {
        PairKind::OtherImages
    } else {
        PairKind::Skipped
    }
}

/// Bucket a pair by its extensions alone; a pair of still images still
/// needs its dimensions compared (see `classify_images`).
pub fn pair_class(c1: ExtClass, c2: ExtClass) -> (r: PairKind)
    ensures
        r == pair_class_of(c1, c2),
{
    if matches!(c1, ExtClass::Anim) && matches!(c2, ExtClass::Anim) {
        PairKind::Anims
    } else if matches!(c1, ExtClass::Video) && matches!(c2, ExtClass::Video) {
        PairKind::Videos
    } else if matches!(c1, ExtClass::Image) && matches!(c2, ExtClass::Image) {
        PairKind::OtherImages
    } else {
        PairKind::Skipped
    }
}

/// How a pair of still images is bucketed and ordered: equal dimensions
/// put the lighter file first; one image strictly smaller both ways puts
/// the smaller first; anything else keeps the given order.
pub open spec fn image_order_of(
    w1: u32,
    h1: u32,
    size1: u64,
    w2: u32,
    h2: u32,
    size2: u64,
) -> (PairKind, bool) {
    if w1 == w2 && h1 == h2 {
        (PairKind::SameDims, !(size1 < size2))
    } else if w1 < w2 && h1 < h2 {
        (PairKind::DiffDims, false)
    } else if w2 < w1 && h2 < h1 {
        (PairKind::DiffDims, true)
    } else {
        (PairKind::OtherImages, false)
    }
}

/// Bucket and order a pair of still images by dimensions and file size.
/// The second component says whether the pair should be swapped.
pub fn classify_images(w1: u32, h1: u32, size1: u64, w2: u32, h2: u32, size2: u64) -> (r: (
    PairKind,
    bool,
))
    ensures
        r == image_order_of(w1, h1, size1, w2, h2, size2),
{
    if w1 == w2 && h1 == h2 {
        (PairKind::SameDims, !(size1 < size2))
    } else if w1 < w2 && h1 < h2 {
        (PairKind::DiffDims, false)
    } else if w2 < w1 && h2 < h1 {
        (PairKind::DiffDims, true)
    } else {
        (PairKind::OtherImages, false)
    }
}

/// What the triage does to a pair after a choice.
#[derive(Clone, Copy, PartialEq, Eq, Structural, Debug)]
pub enum PairAction {
    /// Keep the pair in the report.
    Keep,
    /// Delete the first file of the pair.
    DeleteFirst,
    /// Delete the second file of the pair.
    DeleteSecond,
    /// Keep both files and remember the pair as acceptable.
    KeepBoth,
    /// Remember the pair as a false positive.
    MarkFalsePositive,
}

/// The action a choice triggers in a bucket. `Yes` accepts the bucket's
/// suggestion: delete the smaller image when dimensions differ, delete
/// the heavier image when they match, and keep both otherwise.
pub open spec fn action_of(kind: PairKind, c: Choice) -> PairAction {
    match c {
        Choice::No => PairAction::Keep,
        Choice::First => PairAction::DeleteFirst,
        Choice::Second => PairAction::DeleteSecond,
        Choice::KeepBoth => PairAction::KeepBoth,
        Choice::FalsePositive => PairAction::MarkFalsePositive,
        Choice::Yes => match kind {
            PairKind::DiffDims => PairAction::DeleteFirst,
            PairKind::SameDims => PairAction::DeleteSecond,
            _ => PairAction::KeepBoth,
        },
    }
}

/// The action a choice triggers in a bucket.
pub fn action_for(kind: PairKind, c: Choice) -> (r: PairAction)
    ensures
        r == action_of(kind, c),
{
    match c {
        Choice::No => PairAction::Keep,
        Choice::First => PairAction::DeleteFirst,
        Choice::Second => PairAction::DeleteSecond,
        Choice::KeepBoth => PairAction::KeepBoth,
        Choice::FalsePositive => PairAction::MarkFalsePositive,
        Choice::Yes => match kind {
            PairKind::DiffDims => PairAction::DeleteFirst,
            PairKind::SameDims => PairAction::DeleteSecond,
            _ => PairAction::KeepBoth,
        },
    }
}

} // verus!
