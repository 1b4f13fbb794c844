use eidosdb::dimension::Dimension;
use eidosdb::embedding_check::check_components;
use eidosdb::errors::IndexError;

fn bits(values: &[f32]) -> Vec<u32> {
    values.iter().map(|v| v.to_bits()).collect()
}

#[test]
fn rejects_empty_vector() {
    assert_eq!(check_components(&bits(&[])), Err(IndexError::EmptyEmbedding));
}

#[test]
fn reports_its_dimension() {
    assert_eq!(check_components(&bits(&[1.0, 2.0, 3.0])), Ok(Dimension::new(3).expect("dimension")));
}

#[test]
fn empty_vector_is_rejected() {
    assert!(check_components(&bits(&[])).is_err());
}

#[test]
fn non_finite_vector_is_rejected() {
    assert!(check_components(&bits(&[1.0, f32::NAN, 0.0])).is_err());
    assert_eq!(check_components(&bits(&[f32::INFINITY])), Err(IndexError::NonFiniteComponent));
    assert_eq!(check_components(&bits(&[-0.0, f32::MAX, f32::MIN_POSITIVE])), Ok(Dimension::new(3).expect("dimension")));
}
