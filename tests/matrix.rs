#![allow(non_snake_case)]

use boolmatrix::booleanmatrix::{Matrix, MatrixError, NewMatrix};

#[test]
fn test_matrix_init(){
    let A: Matrix = NewMatrix(10,10);
    assert_eq!(A.n,10);
    assert_eq!(A.m,10);
}

#[test]
fn test_set_get() -> Result<(),String>{

    let mut A: Matrix = NewMatrix(10,10);
    for i in 1..11{
        for j in (1 .. 10).step_by(2){
            A.set(i,j,true).unwrap();
        }
    }

    for i in 1..11{
        for j in (1 .. 10).step_by(2){
            let val = A.get(i,j).unwrap();
            assert!(val,"index {} and {} should return true ",i,j);
        }
    }
    Ok(())
}


#[test]
fn test_multiply(){
    // the values of A
    let mut A: Matrix = NewMatrix(3,3);
    A.set(1,1,true).unwrap();
    A.set(1,2,true).unwrap();
    A.set(1,3,true).unwrap();
    A.set(2,1,true).unwrap();
    A.set(2,3,true).unwrap();
    A.set(3,2,true).unwrap();

    // The values of B
    let mut B: Matrix = NewMatrix(3,3);

    B.set(1,1,true).unwrap();
    B.set(2,3,true).unwrap();
    B.set(3,1,true).unwrap();
    B.set(3,2,true).unwrap();
    B.set(3,3,true).unwrap();

    // Expected result from A x B
    let mut result: Matrix = NewMatrix(3,3);
    result.set(1,1,true).unwrap();
    result.set(1,2,true).unwrap();
    result.set(1,3,true).unwrap();
    result.set(2,1,true).unwrap();
    result.set(2,2,true).unwrap();
    result.set(2,3,true).unwrap();
    result.set(3,3,true).unwrap();

    let D = A.multiply(B).unwrap();

    // Test result of  A x B

    for i in 1 .. 4 {
        for j  in 1 .. 4 {
            assert_eq!(result.get(i,j),D.get(i,j)," testing the result of a matrix multiplication on boolean matrices") ;
        }
    }
}

#[test]
fn test_new_dim(){
    let A = NewMatrix(1,3);
    let B = NewMatrix(3,1);

    let C = A.multiply(B).unwrap();

    assert_eq!(C.n,1, "testing new dimensions from a matrix multiplication {} expected 1",C.n);
    assert_eq!(C.m,1, "testing new dimensions from a matrix multiplication {} expected 1",C.m);
}


#[test]
fn test_overloaded_mul(){
    // the values of A
    let mut A: Matrix = NewMatrix(3,3);
    A.set(1,1,true).unwrap();
    A.set(1,2,true).unwrap();
    A.set(1,3,true).unwrap();
    A.set(2,1,true).unwrap();
    A.set(2,3,true).unwrap();
    A.set(3,2,true).unwrap();

    // The values of B
    let mut B: Matrix = NewMatrix(3,3);

    B.set(1,1,true).unwrap();
    B.set(2,3,true).unwrap();
    B.set(3,1,true).unwrap();
    B.set(3,2,true).unwrap();
    B.set(3,3,true).unwrap();

    // Expected result from A x B
    let mut result: Matrix = NewMatrix(3,3);
    result.set(1,1,true).unwrap();
    result.set(1,2,true).unwrap();
    result.set(1,3,true).unwrap();
    result.set(2,1,true).unwrap();
    result.set(2,2,true).unwrap();
    result.set(2,3,true).unwrap();
    result.set(3,3,true).unwrap();

    let D = (A * B).unwrap();

    for i in 1 .. 4 {
        for j  in 1 .. 4 {
            assert_eq!(result.get(i,j),D.get(i,j)," testing the result of a matrix multiplication on boolean matrices") ;
        }
    }
}

#[test]
fn test_add(){

    let mut A: Matrix = NewMatrix(4,4);
    A.set(1,1,false).unwrap();
    A.set(1,2,false).unwrap();
    A.set(1,3,true).unwrap();
    A.set(1,4,false).unwrap();

    A.set(2,1,false).unwrap();
    A.set(2,2,false).unwrap();
    A.set(2,3,false).unwrap();
    A.set(2,4,true).unwrap();

    A.set(3,1,false).unwrap();
    A.set(3,2,false).unwrap();
    A.set(3,3,true).unwrap();
    A.set(3,4,true).unwrap();

    A.set(4,1,false).unwrap();
    A.set(4,2,false).unwrap();
    A.set(4,3,false).unwrap();
    A.set(4,4,false).unwrap();

    let mut B: Matrix = NewMatrix(4,4);
    B.set(1,1,false).unwrap();
    B.set(1,2,true).unwrap();
    B.set(1,3,false).unwrap();
    B.set(1,4,false).unwrap();

    B.set(2,1,true).unwrap();
    B.set(2,2,false).unwrap();
    B.set(2,3,false).unwrap();
    B.set(2,4,false).unwrap();

    B.set(3,1,false).unwrap();
    B.set(3,2,false).unwrap();
    B.set(3,3,true).unwrap();
    B.set(3,4,false).unwrap();

    B.set(4,1,false).unwrap();
    B.set(4,2,true).unwrap();
    B.set(4,3,false).unwrap();
    B.set(4,4,false).unwrap();

    let mut R: Matrix = NewMatrix(4,4);
    R.set(1,1,false).unwrap();
    R.set(1,2,true).unwrap();
    R.set(1,3,true).unwrap();
    R.set(1,4,false).unwrap();

    R.set(2,1,true).unwrap();
    R.set(2,2,false).unwrap();
    R.set(2,3,false).unwrap();
    R.set(2,4,true).unwrap();

    R.set(3,1,false).unwrap();
    R.set(3,2,false).unwrap();
    R.set(3,3,true).unwrap();
    R.set(3,4,true).unwrap();

    R.set(4,1,false).unwrap();
    R.set(4,2,true).unwrap();
    R.set(4,3,false).unwrap();
    R.set(4,4,false).unwrap();

    let C = A.addition(B).unwrap();

    for i in 1 .. 5 {
        for j  in 1 .. 5 {
            assert_eq!(R.get(i,j),C.get(i,j)," testing the result of a matrix addition on boolean matrices") ;
        }
    }
}

#[test]
fn test_overloaded_add(){

        let mut A: Matrix = NewMatrix(4,4);

        A.set(1,1,false).unwrap();
        A.set(1,2,false).unwrap();
        A.set(1,3,true).unwrap();
        A.set(1,4,false).unwrap();

        A.set(2,1,false).unwrap();
        A.set(2,2,false).unwrap();
        A.set(2,3,false).unwrap();
        A.set(2,4,true).unwrap();

        A.set(3,1,false).unwrap();
        A.set(3,2,false).unwrap();
        A.set(3,3,true).unwrap();
        A.set(3,4,true).unwrap();

        A.set(4,1,false).unwrap();
        A.set(4,2,false).unwrap();
        A.set(4,3,false).unwrap();
        A.set(4,4,false).unwrap();

        let mut B: Matrix = NewMatrix(4,4);
        B.set(1,1,false).unwrap();
        B.set(1,2,true).unwrap();
        B.set(1,3,false).unwrap();
        B.set(1,4,false).unwrap();

        B.set(2,1,true).unwrap();
        B.set(2,2,false).unwrap();
        B.set(2,3,false).unwrap();
        B.set(2,4,false).unwrap();

        B.set(3,1,false).unwrap();
        B.set(3,2,false).unwrap();
        B.set(3,3,true).unwrap();
        B.set(3,4,false).unwrap();

        B.set(4,1,false).unwrap();
        B.set(4,2,true).unwrap();
        B.set(4,3,false).unwrap();
        B.set(4,4,false).unwrap();

        let mut R: Matrix = NewMatrix(4,4);

        R.set(1,1,false).unwrap();
        R.set(1,2,true).unwrap();
        R.set(1,3,true).unwrap();
        R.set(1,4,false).unwrap();

        R.set(2,1,true).unwrap();
        R.set(2,2,false).unwrap();
        R.set(2,3,false).unwrap();
        R.set(2,4,true).unwrap();

        R.set(3,1,false).unwrap();
        R.set(3,2,false).unwrap();
        R.set(3,3,true).unwrap();
        R.set(3,4,true).unwrap();

        R.set(4,1,false).unwrap();
        R.set(4,2,true).unwrap();
        R.set(4,3,false).unwrap();
        R.set(4,4,false).unwrap();

        let C = (A + B).unwrap();

        for i in 1 .. 5 {
            for j  in 1 .. 5 {
                assert_eq!(R.get(i,j),C.get(i,j)," testing the result of a matrix addition on boolean matrices") ;
            }
        }
}

#[test]
fn test_transpose(){
    let mut A: Matrix = NewMatrix(4,4);
    A.set(1,1,false).unwrap();
    A.set(1,2,false).unwrap();
    A.set(1,3,true).unwrap();
    A.set(1,4,false).unwrap();

    A.set(2,1,false).unwrap();
    A.set(2,2,false).unwrap();
    A.set(2,3,false).unwrap();
    A.set(2,4,true).unwrap();

    A.set(3,1,false).unwrap();
    A.set(3,2,false).unwrap();
    A.set(3,3,true).unwrap();
    A.set(3,4,true).unwrap();

    A.set(4,1,false).unwrap();
    A.set(4,2,false).unwrap();
    A.set(4,3,false).unwrap();
    A.set(4,4,false).unwrap();

    let mut R: Matrix = NewMatrix(4,4);
    R.set(1,1,false).unwrap();
    R.set(1,2,false).unwrap();
    R.set(1,3,false).unwrap();
    R.set(1,4,false).unwrap();

    R.set(2,1,false).unwrap();
    R.set(2,2,false).unwrap();
    R.set(2,3,false).unwrap();
    R.set(2,4,false).unwrap();

    R.set(3,1,true).unwrap();
    R.set(3,2,false).unwrap();
    R.set(3,3,true).unwrap();
    R.set(3,4,false).unwrap();

    R.set(4,1,false).unwrap();
    R.set(4,2,true).unwrap();
    R.set(4,3,true).unwrap();
    R.set(4,4,false).unwrap();

    let C = A.transpose();

    for i in 1 .. 5 {
        for j  in 1 .. 5 {
            assert_eq!(R.get(i,j),C.get(i,j)," testing the result of a matrix transpose on boolean matrices") ;
        }
    }
}

#[test]
fn test_invalid_matrix_mul2() {
    let A = NewMatrix(3, 4);
    let B = NewMatrix(5, 6);

    let result = A.multiply(B);

    assert!(result.is_err());
}

#[test]
fn new_matrix_is_all_false() {
    for (n, m) in [(1usize, 1usize), (3, 4), (8, 8), (9, 9), (1, 65), (13, 7)] {
        let A = NewMatrix(n, m);
        assert_eq!(A.n, n);
        assert_eq!(A.m, m);
        for i in 1..n + 1 {
            for j in 1..m + 1 {
                assert_eq!(A.get(i, j), Ok(false));
            }
        }
    }
}

#[test]
fn set_then_get_round_trip_leaves_other_cells() {
    let mut A = NewMatrix(9, 9);
    A.set(4, 8, true).unwrap();
    assert_eq!(A.get(4, 8), Ok(true));
    for i in 1..10 {
        for j in 1..10 {
            if (i, j) != (4, 8) {
                assert_eq!(A.get(i, j), Ok(false));
            }
        }
    }
    A.set(4, 9, true).unwrap();
    A.set(4, 8, false).unwrap();
    assert_eq!(A.get(4, 8), Ok(false));
    assert_eq!(A.get(4, 9), Ok(true));
    A.set(4, 9, true).unwrap();
    assert_eq!(A.get(4, 9), Ok(true));
}

#[test]
fn cells_across_word_boundary() {
    let mut A = NewMatrix(1, 130);
    A.set(1, 64, true).unwrap();
    A.set(1, 65, true).unwrap();
    A.set(1, 130, true).unwrap();
    for j in 1..131 {
        assert_eq!(A.get(1, j), Ok(j == 64 || j == 65 || j == 130));
    }
}

#[test]
fn out_of_range_coordinates_are_rejected() {
    let mut A = NewMatrix(2, 3);
    assert_eq!(A.get(0, 1), Err(MatrixError::IndexOutOfRange));
    assert_eq!(A.get(1, 0), Err(MatrixError::IndexOutOfRange));
    assert_eq!(A.get(3, 1), Err(MatrixError::IndexOutOfRange));
    assert_eq!(A.get(1, 4), Err(MatrixError::IndexOutOfRange));
    assert_eq!(A.set(0, 0, true), Err(MatrixError::IndexOutOfRange));
    assert_eq!(A.set(2, 4, true), Err(MatrixError::IndexOutOfRange));
    for i in 1..3 {
        for j in 1..4 {
            assert_eq!(A.get(i, j), Ok(false));
        }
    }
}

fn sample(n: usize, m: usize, cells: &[(usize, usize)]) -> Matrix {
    let mut A = NewMatrix(n, m);
    for &(i, j) in cells {
        A.set(i, j, true).unwrap();
    }
    A
}

#[test]
fn addition_is_commutative_elementwise_or() {
    let a_cells = [(1, 1), (2, 3), (3, 2)];
    let b_cells = [(1, 1), (1, 2), (3, 3)];
    let AB = sample(3, 3, &a_cells).addition(sample(3, 3, &b_cells)).unwrap();
    let BA = sample(3, 3, &b_cells).addition(sample(3, 3, &a_cells)).unwrap();
    let A = sample(3, 3, &a_cells);
    let B = sample(3, 3, &b_cells);
    for i in 1..4 {
        for j in 1..4 {
            let expected = A.get(i, j).unwrap() || B.get(i, j).unwrap();
            assert_eq!(AB.get(i, j), Ok(expected));
            assert_eq!(BA.get(i, j), Ok(expected));
        }
    }
}

#[test]
fn addition_shape_mismatch_is_reported() {
    let A = NewMatrix(2, 3);
    assert!(matches!(A.addition(NewMatrix(3, 2)), Err(MatrixError::DimensionMismatch)));
    let A = NewMatrix(2, 3);
    assert!(matches!(A.addition(NewMatrix(2, 4)), Err(MatrixError::DimensionMismatch)));
    assert!(matches!(NewMatrix(2, 3) + NewMatrix(1, 3), Err(MatrixError::DimensionMismatch)));
}

#[test]
fn multiply_inner_mismatch_is_reported() {
    let A = NewMatrix(3, 4);
    assert!(matches!(A.multiply(NewMatrix(5, 6)), Err(MatrixError::DimensionMismatch)));
    assert!(matches!(NewMatrix(3, 4) * NewMatrix(5, 6), Err(MatrixError::DimensionMismatch)));
}

#[test]
fn multiply_rectangular_shapes() {
    // (2 x 3) * (3 x 2)
    let A = sample(2, 3, &[(1, 2), (2, 3)]);
    let B = sample(3, 2, &[(2, 1), (3, 2)]);
    let C = A.multiply(B).unwrap();
    assert_eq!((C.n, C.m), (2, 2));
    assert_eq!(C.get(1, 1), Ok(true));
    assert_eq!(C.get(1, 2), Ok(false));
    assert_eq!(C.get(2, 1), Ok(false));
    assert_eq!(C.get(2, 2), Ok(true));
}

#[test]
fn transpose_shape_and_involution() {
    let cells = [(1, 1), (1, 5), (2, 3), (3, 4)];
    let A = sample(3, 5, &cells);
    let T = A.transpose();
    assert_eq!((T.n, T.m), (5, 3));
    for i in 1..4 {
        for j in 1..6 {
            assert_eq!(T.get(j, i), A.get(i, j));
        }
    }
    let TT = T.transpose();
    assert_eq!((TT.n, TT.m), (3, 5));
    for i in 1..4 {
        for j in 1..6 {
            assert_eq!(TT.get(i, j), A.get(i, j));
        }
    }
}

#[test]
fn dump_renders_rows() {
    let A = sample(2, 3, &[(1, 1), (2, 3)]);
    let rows: Vec<String> = A.dump().into_iter().map(|r| r.into_iter().collect()).collect();
    assert_eq!(rows, vec!["100".to_string(), "001".to_string()]);
}

#[test]
fn operators_reject_inconsistent_shape() {
    let mut A = NewMatrix(2, 2);
    A.n = 200;
    assert!(matches!(A * NewMatrix(2, 2), Err(MatrixError::DimensionMismatch)));
    let mut A = NewMatrix(2, 2);
    A.m = 300;
    assert!(matches!(A + NewMatrix(2, 300), Err(MatrixError::DimensionMismatch)));
}

#[test]
fn shape_getters_report_rows_and_columns() {
    let A = NewMatrix(3, 7);
    assert_eq!((A.rows(), A.cols()), (3, 7));
    let T = A.transpose();
    assert_eq!((T.rows(), T.cols()), (7, 3));
}
