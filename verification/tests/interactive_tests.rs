use duplicate_finder::files::ExtClass;
use duplicate_finder::interactive::{
    action_for, classify_images, interpret_answer, pair_class, Choice, PairAction, PairKind,
};

#[test]
fn choice_letters_are_fixed() {
    assert_eq!(Choice::Yes.to_letter(), 'y');
    assert_eq!(Choice::No.to_letter(), 'n');
    assert_eq!(Choice::First.to_letter(), '1');
    assert_eq!(Choice::Second.to_letter(), '2');
    assert_eq!(Choice::KeepBoth.to_letter(), 'k');
    assert_eq!(Choice::FalsePositive.to_letter(), 'f');
}

#[test]
fn choice_from_letter_handles_both_cases_and_defaults() {
    assert_eq!(Choice::from_letter('y', Choice::No), Choice::Yes);
    assert_eq!(Choice::from_letter('Y', Choice::No), Choice::Yes);
    assert_eq!(Choice::from_letter('F', Choice::No), Choice::FalsePositive);
    assert_eq!(Choice::from_letter('q', Choice::KeepBoth), Choice::KeepBoth);
}

#[test]
fn choice_letters_round_trip() {
    for c in Choice::each() {
        assert_eq!(Choice::from_letter(c.to_letter(), Choice::No), c);
    }
}

#[test]
fn each_lists_all_six_choices_in_order() {
    let all = Choice::each();
    assert_eq!(all.len(), 6);
    assert_eq!(all[0], Choice::Yes);
    assert_eq!(all[5], Choice::FalsePositive);
}

#[test]
fn answers_are_interpreted_like_prompts() {
    assert_eq!(interpret_answer("", Choice::Yes), Choice::Yes);
    assert_eq!(interpret_answer("\n", Choice::Yes), Choice::Yes);
    assert_eq!(interpret_answer("n\n", Choice::Yes), Choice::No);
    assert_eq!(interpret_answer("2\n", Choice::Yes), Choice::Second);
    assert_eq!(interpret_answer("x\n", Choice::Yes), Choice::No);
}

#[test]
fn pairs_bucket_by_extension_class() {
    assert_eq!(pair_class(ExtClass::Anim, ExtClass::Anim), PairKind::Anims);
    assert_eq!(pair_class(ExtClass::Video, ExtClass::Video), PairKind::Videos);
    assert_eq!(pair_class(ExtClass::Image, ExtClass::Image), PairKind::OtherImages);
    assert_eq!(pair_class(ExtClass::Image, ExtClass::Video), PairKind::Skipped);
    assert_eq!(pair_class(ExtClass::Other, ExtClass::Other), PairKind::Skipped);
}

#[test]
fn same_dimensions_put_the_lighter_image_first() {
    assert_eq!(classify_images(10, 10, 100, 10, 10, 200), (PairKind::SameDims, false));
    assert_eq!(classify_images(10, 10, 300, 10, 10, 200), (PairKind::SameDims, true));
}

#[test]
fn strictly_smaller_image_comes_first() {
    assert_eq!(classify_images(5, 5, 0, 10, 10, 0), (PairKind::DiffDims, false));
    assert_eq!(classify_images(10, 10, 0, 5, 5, 0), (PairKind::DiffDims, true));
}

#[test]
fn mixed_dimensions_fall_back_to_other_images() {
    assert_eq!(classify_images(5, 20, 0, 10, 10, 0), (PairKind::OtherImages, false));
}

#[test]
fn yes_accepts_each_buckets_suggestion() {
    assert_eq!(action_for(PairKind::DiffDims, Choice::Yes), PairAction::DeleteFirst);
    assert_eq!(action_for(PairKind::SameDims, Choice::Yes), PairAction::DeleteSecond);
    assert_eq!(action_for(PairKind::OtherImages, Choice::Yes), PairAction::KeepBoth);
    assert_eq!(action_for(PairKind::Anims, Choice::Yes), PairAction::KeepBoth);
    assert_eq!(action_for(PairKind::Videos, Choice::Yes), PairAction::KeepBoth);
}

#[test]
fn explicit_choices_act_the_same_in_every_bucket() {
    for kind in [
        PairKind::Anims,
        PairKind::Videos,
        PairKind::SameDims,
        PairKind::DiffDims,
        PairKind::OtherImages,
    ] {
        assert_eq!(action_for(kind, Choice::No), PairAction::Keep);
        assert_eq!(action_for(kind, Choice::First), PairAction::DeleteFirst);
        assert_eq!(action_for(kind, Choice::Second), PairAction::DeleteSecond);
        assert_eq!(action_for(kind, Choice::KeepBoth), PairAction::KeepBoth);
        assert_eq!(action_for(kind, Choice::FalsePositive), PairAction::MarkFalsePositive);
    }
}
