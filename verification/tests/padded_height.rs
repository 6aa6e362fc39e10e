use constraint_evaluation_generator::padded_height::padded_height;
use constraint_evaluation_generator::padded_height::power_of_two;
use constraint_evaluation_generator::padded_height::PaddedHeightError;

/// What an item of a proof gives of the padded height: its logarithm, if
/// the item holds one.
#[derive(Clone, Copy)]
enum ProofItem {
    MerkleRoot,
    Log2PaddedHeight(u32),
}

fn log_2_padded_heights(items: &[ProofItem]) -> Vec<Option<u32>> {
    items
        .iter()
        .map(|item| match item {
            ProofItem::MerkleRoot => None,
            ProofItem::Log2PaddedHeight(height) => Some(*height),
        })
        .collect()
}

#[test]
fn proof_with_no_log_2_padded_height_gives_err() {
    let proof = log_2_padded_heights(&[ProofItem::MerkleRoot]);
    let maybe_padded_height = padded_height(&proof);
    assert!(maybe_padded_height.is_err());
}

#[test]
fn proof_with_multiple_log_2_padded_height_gives_err() {
    let proof = log_2_padded_heights(&[
        ProofItem::Log2PaddedHeight(8),
        ProofItem::MerkleRoot,
        ProofItem::Log2PaddedHeight(7),
    ]);
    let maybe_padded_height = padded_height(&proof);
    assert!(maybe_padded_height.is_err());
}

#[test]
fn a_proof_gives_its_padded_height_exactly_once() {
    assert_eq!(padded_height(&vec![None, Some(8), None]), Ok(256));
    assert_eq!(padded_height(&vec![Some(0)]), Ok(1));
    assert_eq!(padded_height(&vec![Some(31)]), Ok(1 << 31));
    let widest = usize::BITS - 1;
    assert_eq!(padded_height(&vec![None, Some(widest)]), Ok(1 << widest));
    assert_eq!(power_of_two(widest), usize::MAX / 2 + 1);
    assert_eq!(power_of_two(10), 1024);
}

#[test]
fn a_proof_without_a_padded_height_is_refused() {
    assert_eq!(padded_height(&vec![None]), Err(PaddedHeightError::Missing));
    assert_eq!(padded_height(&vec![]), Err(PaddedHeightError::Missing));
}

#[test]
fn a_proof_with_several_padded_heights_is_refused() {
    assert_eq!(padded_height(&vec![Some(8), None, Some(7)]), Err(PaddedHeightError::Multiple));
    assert_eq!(padded_height(&vec![Some(8), Some(8)]), Err(PaddedHeightError::Multiple));
}
