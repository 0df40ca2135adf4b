use rust_kv_store::matrix::{
    create_identity_matrix, create_ones_matrix, create_zeros_matrix, Matrix, F64_ONE_BITS,
    F64_ZERO_BITS,
};
use rust_kv_store::server_types::{
    create_store_reply, delete_reply, get_reply, health_status, list_reply, store_reply,
    value_delete_reply, value_get_reply, value_put_reply,
};

#[test]
fn test_identity_matrix() {
    let identity = create_identity_matrix(3);
    assert_eq!(
        identity.data,
        vec![
            1.0f64.to_bits(),
            0.0f64.to_bits(),
            0.0f64.to_bits(),
            0.0f64.to_bits(),
            1.0f64.to_bits(),
            0.0f64.to_bits(),
            0.0f64.to_bits(),
            0.0f64.to_bits(),
            1.0f64.to_bits(),
        ]
    );
    assert_eq!(identity.shape, vec![3, 3]);
}

#[test]
fn zeros_matrix_is_all_zero() {
    let m = create_zeros_matrix(2, 3);
    assert_eq!(m.data, vec![0.0f64.to_bits(); 6]);
    assert_eq!(m.shape, vec![2, 3]);
    assert_eq!(F64_ZERO_BITS, 0.0f64.to_bits());
}

#[test]
fn ones_matrix_is_all_one() {
    let m = create_ones_matrix(3, 2);
    assert_eq!(m.data, vec![1.0f64.to_bits(); 6]);
    assert_eq!(m.shape, vec![3, 2]);
    assert_eq!(F64_ONE_BITS, 1.0f64.to_bits());
}

#[test]
fn matrix_new_keeps_parts() {
    let m = Matrix::new(vec![1, 2, 3, 4], vec![2, 2]);
    assert_eq!(m.data, vec![1, 2, 3, 4]);
    assert_eq!(m.shape, vec![2, 2]);
}

#[test]
fn store_reply_tells_update_from_insert() {
    let fresh = store_reply("k1".to_string(), false);
    assert!(fresh.success);
    assert_eq!(fresh.message, "Matrix stored successfully");
    let updated = store_reply("k1".to_string(), true);
    assert!(updated.success);
    assert_eq!(updated.message, "Matrix updated successfully");
}

#[test]
fn get_reply_reports_absence_without_error() {
    let m = create_zeros_matrix(1, 1);
    let found = get_reply("k".to_string(), Some(m));
    assert!(found.success);
    assert_eq!(found.message, "Matrix retrieved successfully");
    let missing = get_reply("k".to_string(), None);
    assert!(!missing.success);
    assert_eq!(missing.message, "Matrix not found");
    assert!(missing.matrix.is_none());
}

#[test]
fn delete_reply_reports_removal() {
    assert_eq!(delete_reply("k".to_string(), true).message, "Matrix deleted successfully");
    assert_eq!(delete_reply("k".to_string(), false).message, "Matrix not found");
}

#[test]
fn list_reply_counts_keys() {
    let r = list_reply(vec!["a".to_string(), "b".to_string()]);
    assert_eq!(r.count, 2);
    assert!(r.success);
    assert_eq!(r.keys, vec!["a".to_string(), "b".to_string()]);
}

#[test]
fn health_is_a_constant_signal() {
    assert_eq!(health_status(), "healthy");
}

#[test]
fn value_replies_choose_exact_messages() {
    assert_eq!(value_put_reply(false), (true, "Value stored successfully".to_string()));
    assert_eq!(value_put_reply(true), (true, "Value updated successfully".to_string()));
    assert_eq!(value_get_reply(true), (true, "Value retrieved successfully".to_string()));
    assert_eq!(value_get_reply(false), (false, "Value not found".to_string()));
    assert_eq!(value_delete_reply(true), (true, "Value deleted successfully".to_string()));
    assert_eq!(value_delete_reply(false), (false, "Value not found".to_string()));
}

#[test]
fn create_store_reply_echoes_the_name() {
    assert_eq!(
        create_store_reply("tensors"),
        (true, "Store 'tensors' created successfully".to_string())
    );
}
