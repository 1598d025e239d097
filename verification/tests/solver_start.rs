use portfolio_solver::csv_parser::Data;
use portfolio_solver::datastructures::{Algorithm, Instance};
use portfolio_solver::solver::{initial_assignment, initial_portfolio};
use portfolio_solver::tensor::{AlgorithmArray, QualityTensor, TensorError, ValueArray};

fn data(counts: Option<&[u64]>) -> Data {
    let algorithms = vec![
        Algorithm::new("a".into(), 1),
        Algorithm::new("b".into(), 1),
        Algorithm::new("c".into(), 2),
    ];
    Data::new(&algorithms, &[5, 6, 7, 8], counts, &[1; 4 * 3 * 8], 8).unwrap()
}

#[test]
fn given_replica_counts_take_precedence() {
    let data = data(Some(&[3, 0, 1]));
    assert_eq!(initial_assignment(&data, 8, Some(vec![1, 1, 1])), Some(vec![1, 1, 1]));
}

#[test]
fn replica_counts_follow_the_wins_where_none_are_given() {
    assert_eq!(initial_assignment(&data(Some(&[3, 0, 1])), 8, None), Some(vec![6, 0, 1]));
    assert_eq!(initial_assignment(&data(None), 8, None), None);
    // the counts do not match the algorithms
    assert_eq!(initial_assignment(&data(Some(&[3, 1])), 8, None), None);
}

#[test]
fn initial_portfolio_marks_the_start_of_the_solver() {
    let data = data(None);
    let (matrix, portfolio) = initial_portfolio(&vec![6, 0, 1], &data.algorithms.to_vec(),
        8).unwrap();
    assert_eq!(matrix.len(), 3 * 8);
    let marked: Vec<usize> =
        matrix.iter().enumerate().filter(|(_, &m)| m).map(|(i, _)| i).collect();
    assert_eq!(marked, vec![5, 16]);
    assert_eq!(portfolio.name, "initial_portfolio");
    let replicas: Vec<u64> = portfolio.resource_assignments.iter().map(|(_, r)| *r).collect();
    assert_eq!(replicas, vec![6, 0, 1]);
    assert!(initial_portfolio(&vec![9, 0, 0], &data.algorithms.to_vec(), 8).is_none());
}

#[test]
fn tensors_hold_their_cells_row_by_row() {
    let tensor = QualityTensor::from_cells(2, 3, 4, (0..24).collect()).unwrap();
    assert_eq!(tensor.dim(), (2, 3, 4));
    assert_eq!(tensor.get(0, 0, 0), Some(0));
    assert_eq!(tensor.get(0, 0, 3), Some(3));
    assert_eq!(tensor.get(0, 2, 1), Some(9));
    assert_eq!(tensor.get(1, 0, 0), Some(12));
    assert_eq!(tensor.get(1, 2, 3), Some(23));
    assert_eq!(tensor.get(2, 0, 0), None);
    assert!(matches!(QualityTensor::from_cells(2, 3, 4, (0..23).collect()),
        Err(TensorError::Shape)));
    assert!(matches!(QualityTensor::from_cells(2, 3, 4, (0..25).collect()),
        Err(TensorError::Shape)));
    assert!(QualityTensor::from_cells(0, 3, 4, vec![]).is_ok());
    assert!(matches!(
        QualityTensor::from_cells(usize::MAX, usize::MAX, 0, vec![]),
        Err(TensorError::Shape)
    ));
}

#[test]
fn arrays_hold_their_elements_in_order() {
    let values = ValueArray::from_vec(vec![7, 5, 9]);
    assert_eq!(values.len(), 3);
    assert_eq!(values.get(0), Some(7));
    assert_eq!(values.get(2), Some(9));
    assert_eq!(values.get(3), None);
    assert_eq!(values.to_vec(), vec![7, 5, 9]);
    assert_eq!(ValueArray::from_vec(vec![]).len(), 0);
    let algorithms = vec![Algorithm::new("b".into(), 2), Algorithm::new("a".into(), 1)];
    let array = AlgorithmArray::from_vec(algorithms.clone());
    assert_eq!(array.len(), 2);
    assert_eq!(array.get(1), Some(&algorithms[1]));
    assert_eq!(array.get(2), None);
    assert_eq!(array.to_vec(), algorithms);
}

#[test]
fn counts_beyond_32_bits_give_no_start() {
    assert_eq!(initial_assignment(&data(Some(&[1 << 32, 0, 1])), 8, None), None);
}
