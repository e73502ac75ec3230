use advz::advz::{Common, Share};
use advz::curve::G1Point;
use advz::field::Scalar;
use advz::hash::HashNode;
use advz::merkle_tree::MerkleProof;

fn common() -> Common {
    Common {
        poly_commits: vec![G1Point { bytes: [7u8; 96] }, G1Point { bytes: [8u8; 96] }],
        all_evals_digest: HashNode { bytes: [9u8; 32] },
        payload_byte_len: 0x0102_0304,
        num_storage_nodes: 6,
        multiplicity: 1,
    }
}

fn share() -> Share {
    Share {
        index: 0x0a0b_0c0d,
        evals: vec![Scalar { bytes: [1u8; 32] }, Scalar { bytes: [2u8; 32] }, Scalar::one()],
        aggregate_proofs: vec![G1Point { bytes: [3u8; 96] }],
        evals_proof: MerkleProof {
            path: vec![HashNode { bytes: [4u8; 32] }, HashNode { bytes: [5u8; 32] }],
        },
    }
}

#[test]
fn common_data_on_the_wire() {
    let bytes = common().to_bytes();
    assert_eq!(bytes.len(), 8 + 2 * 96 + 32 + 12);
    assert_eq!(&bytes[..8], &[2, 0, 0, 0, 0, 0, 0, 0]);
    assert_eq!(&bytes[8..104], &[7u8; 96]);
    assert_eq!(&bytes[104..200], &[8u8; 96]);
    assert_eq!(&bytes[200..232], &[9u8; 32]);
    assert_eq!(&bytes[232..], &[4, 3, 2, 1, 6, 0, 0, 0, 1, 0, 0, 0]);
    assert_eq!(Common::from_bytes(&bytes), Some(common()));
}

#[test]
fn share_on_the_wire() {
    let bytes = share().to_bytes();
    assert_eq!(bytes.len(), 4 + 8 + 3 * 32 + 8 + 96 + 8 + 2 * 32);
    assert_eq!(&bytes[..12], &[0x0d, 0x0c, 0x0b, 0x0a, 3, 0, 0, 0, 0, 0, 0, 0]);
    assert_eq!(&bytes[12..44], &[1u8; 32]);
    assert_eq!(bytes[76], 1);
    assert_eq!(&bytes[108..116], &[1, 0, 0, 0, 0, 0, 0, 0]);
    assert_eq!(&bytes[116..212], &[3u8; 96]);
    assert_eq!(&bytes[212..220], &[2, 0, 0, 0, 0, 0, 0, 0]);
    assert_eq!(&bytes[252..], &[5u8; 32]);
    assert_eq!(Share::from_bytes(&bytes), Some(share()));
}

#[test]
fn only_wire_forms_are_read() {
    let bytes = common().to_bytes();
    assert_eq!(Common::from_bytes(&bytes[..bytes.len() - 1]), None);
    let mut longer = bytes.clone();
    longer.push(0);
    assert_eq!(Common::from_bytes(&longer), None);
    let mut more = bytes.clone();
    more[0] = 3;
    assert_eq!(Common::from_bytes(&more), None);
    assert_eq!(Common::from_bytes(&[]), None);
    let mut huge = bytes;
    huge[7] = 0xff;
    assert_eq!(Common::from_bytes(&huge), None);

    let bytes = share().to_bytes();
    assert_eq!(Share::from_bytes(&bytes[..bytes.len() - 1]), None);
    assert_eq!(Share::from_bytes(&bytes[..27]), None);
    let mut longer = bytes.clone();
    longer.push(0);
    assert_eq!(Share::from_bytes(&longer), None);
    let mut fewer = bytes.clone();
    fewer[4] = 2;
    assert_eq!(Share::from_bytes(&fewer), None);
    let mut huge = bytes;
    huge[11] = 0xff;
    assert_eq!(Share::from_bytes(&huge), None);
}

#[test]
fn empty_lists_on_the_wire() {
    let empty = Share {
        index: 0,
        evals: vec![],
        aggregate_proofs: vec![],
        evals_proof: MerkleProof { path: vec![] },
    };
    assert_eq!(empty.to_bytes(), vec![0u8; 28]);
    assert_eq!(Share::from_bytes(&[0u8; 28]), Some(empty));
    let common = Common::from_bytes(&[0u8; 52]).unwrap();
    assert!(common.poly_commits.is_empty());
    assert_eq!(common.to_bytes(), vec![0u8; 52]);
}
