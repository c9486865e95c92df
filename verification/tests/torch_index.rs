use asseteer::torch_index::pytorch_index_for;

const CU126: &str = "https://download.pytorch.org/whl/cu126";
const CU128: &str = "https://download.pytorch.org/whl/cu128";

#[test]
fn pascal_and_older_get_cuda_12_6() {
    assert_eq!(pytorch_index_for("6.1"), Some(CU126));
    assert_eq!(pytorch_index_for("6.1\n"), Some(CU126));
    assert_eq!(pytorch_index_for("5"), Some(CU126));
    assert_eq!(pytorch_index_for("+6.1"), Some(CU126));
}

#[test]
fn volta_and_newer_get_cuda_12_8() {
    assert_eq!(pytorch_index_for("8.9\n"), Some(CU128));
    assert_eq!(pytorch_index_for("  7.0  "), Some(CU128));
    assert_eq!(pytorch_index_for("12.0\n8.6\n"), Some(CU128));
}

#[test]
fn unreadable_capability_means_cpu_only() {
    assert_eq!(pytorch_index_for(""), None);
    assert_eq!(pytorch_index_for("\n"), None);
    assert_eq!(pytorch_index_for("N/A"), None);
    assert_eq!(pytorch_index_for(".5"), None);
    assert_eq!(pytorch_index_for("-1.0"), None);
    assert_eq!(pytorch_index_for("99999999999.0"), None);
}
