//! `weights::WeightFile` on a tiny hand-built safetensors file.

use qwen3_tts::schema;
use qwen3_tts::weights::{HostTable, HostTensor, WeightFile, Words};
use qwen3_tts::TtsError;

/// Layout per the safetensors format: u64 LE header length, JSON header
/// (space-padded to a multiple of 8), then the tensor bytes in offset order.
fn fixture() -> Vec<u8> {
    let t: Vec<u8> = (0..12).flat_map(|i| (i as f32).to_le_bytes()).collect();
    let u: Vec<u8> = [0x3C00u16, 0x4000, 0x4200, 0x4400]
        .iter()
        .flat_map(|h| h.to_le_bytes())
        .collect();
    let b: Vec<u8> = [1.0f32, 2.0, 3.0]
        .iter()
        .flat_map(|v| v.to_le_bytes())
        .collect();
    let k: Vec<u8> = [0x3F80u16, 0x4000]
        .iter()
        .flat_map(|v| v.to_le_bytes())
        .collect();
    let i: Vec<u8> = vec![7, 0xF9];
    let parts = [
        ("t", "F32", "[3,4]", t),
        ("u", "F16", "[2,2]", u),
        ("b", "F32", "[3]", b),
        ("k", "BF16", "[1,2,1]", k),
        ("i", "I8", "[2]", i),
    ];
    let mut header = String::from("{");
    let mut data: Vec<u8> = Vec::new();
    for (n, (name, dtype, shape, bytes)) in parts.iter().enumerate() {
        let from = data.len();
        data.extend_from_slice(bytes);
        let to = data.len();
        let comma = if n == 0 { "" } else { "," };
        header.push_str(&format!(
            "{comma}\"{name}\":{{\"dtype\":\"{dtype}\",\"shape\":{shape},\"data_offsets\":[{from},{to}]}}"
        ));
    }
    header.push('}');
    while header.len() % 8 != 0 {
        header.push(' ');
    }
    let mut bytes = (header.len() as u64).to_le_bytes().to_vec();
    bytes.extend_from_slice(header.as_bytes());
    bytes.extend_from_slice(&data);
    bytes
}

fn full(t: &HostTensor) -> Vec<f32> {
    match &t.words {
        Words::Full(v) => v.iter().map(|&b| f32::from_bits(b)).collect(),
        other => panic!("expected single precision, got {other:?}"),
    }
}

#[test]
fn open_reports_tensor_names() {
    let bytes = fixture();
    let wf = WeightFile::open("names", &bytes).expect("open");
    assert!(wf.has("t"));
    assert!(wf.has("u"));
    assert!(wf.has("b"));
    assert!(!wf.has("missing"));
    assert!(!wf.has(""));
}

#[test]
fn rows_f16_reports_shape_for_f32_and_f16_sources() {
    let bytes = fixture();
    let wf = WeightFile::open("shape", &bytes).expect("open");
    let t = wf.rows_f16("t").expect("t");
    assert_eq!((t.shape[0], t.shape[1]), (3, 4));
    assert_eq!(t.shape.len(), 2);
    let u = wf.rows_f16("u").expect("u");
    assert_eq!((u.shape[0], u.shape[1]), (2, 2));
    assert_eq!(u.shape.len(), 2);
    match u.words {
        Words::Half(v) => {
            let table = HostTable::new(v, 2, 2).expect("a whole table");
            assert_eq!((table.rows(), table.cols()), (2, 2));
        }
        other => panic!("expected half precision, got {other:?}"),
    }
}

#[test]
fn rows_f16_rejects_1d_tensor() {
    let bytes = fixture();
    let wf = WeightFile::open("1d", &bytes).expect("open");
    let err = wf.rows_f16("b").err().expect("1D tensor must be rejected");
    match &err {
        TtsError::TensorShape {
            name,
            expected,
            got,
        } => {
            assert_eq!(name, "b");
            assert_eq!(expected, "2D");
            assert_eq!(got, &[3]);
        }
        other => panic!("expected TensorShape, got {other:?}"),
    }
    assert!(err.message().contains("b"));
}

#[test]
fn rows_f16_reports_missing_name() {
    let bytes = fixture();
    let wf = WeightFile::open("missing", &bytes).expect("open");
    let err = wf
        .rows_f16("nope")
        .err()
        .expect("missing tensor must be rejected");
    match &err {
        TtsError::MissingTensor { name } => assert_eq!(name, "nope"),
        other => panic!("expected MissingTensor, got {other:?}"),
    }
    assert!(err.message().contains("nope"));
}

#[test]
fn open_rejects_a_non_safetensors_file() {
    let path = "junk.safetensors";
    match WeightFile::open(path, b"not a safetensors file") {
        Err(TtsError::BadSafetensors { path: p, detail }) => {
            assert_eq!(p, path);
            assert!(!detail.is_empty());
        }
        Err(other) => panic!("expected BadSafetensors, got {other:?}"),
        Ok(_) => panic!("open must reject a non-safetensors file"),
    }
}

#[test]
fn open_rejects_more_data_than_can_be_addressed() {
    // Sixteen tensors that follow one another and end at the last byte there
    // can be.
    let step = 1u64 << 60;
    let parts: Vec<String> = (0..16u64)
        .map(|i| {
            let to = (i + 1).checked_mul(step).unwrap_or(u64::MAX);
            let len = to - i * step;
            format!(
                "\"t{i}\":{{\"dtype\":\"U8\",\"shape\":[{len}],\"data_offsets\":[{},{to}]}}",
                i * step
            )
        })
        .collect();
    let header = format!("{{{}}}", parts.join(","));
    let mut bytes = (header.len() as u64).to_le_bytes().to_vec();
    bytes.extend_from_slice(header.as_bytes());
    match WeightFile::open("huge", &bytes) {
        Err(TtsError::BadSafetensors { path, detail }) => {
            assert_eq!(path, "huge");
            assert_eq!(detail, "the header declares more data than can be addressed");
        }
        Err(other) => panic!("expected BadSafetensors, got {other:?}"),
        Ok(_) => panic!("no file is that large"),
    }
    // One whose data are merely not there is the reader's to refuse.
    let header = r#"{"t":{"dtype":"U8","shape":[9],"data_offsets":[0,9]}}"#;
    let mut bytes = (header.len() as u64).to_le_bytes().to_vec();
    bytes.extend_from_slice(header.as_bytes());
    match WeightFile::open("short", &bytes) {
        Err(TtsError::BadSafetensors { detail, .. }) => {
            assert_ne!(detail, "the header declares more data than can be addressed")
        }
        Err(other) => panic!("expected BadSafetensors, got {other:?}"),
        Ok(_) => panic!("the data are not there"),
    }
}

#[test]
fn tensors_hold_the_stored_words() {
    let bytes = fixture();
    let wf = WeightFile::open("words", &bytes).expect("open");
    let t = wf.tensor2("t").expect("t");
    assert_eq!(t.shape, vec![3, 4]);
    assert_eq!(full(&t), (0..12).map(|i| i as f32).collect::<Vec<f32>>());
    assert_eq!(full(&wf.tensor1("b").expect("b")), vec![1.0, 2.0, 3.0]);
    let k = wf.tensor3("k").expect("k");
    assert_eq!(k.shape, vec![1, 2, 1]);
    match k.words {
        Words::Brain(v) => assert_eq!(v, vec![0x3F80, 0x4000]),
        other => panic!("expected bfloat16, got {other:?}"),
    }
    match wf.tensor("u", 2).expect("u").words {
        Words::Half(v) => assert_eq!(v, vec![0x3C00, 0x4000, 0x4200, 0x4400]),
        other => panic!("expected half precision, got {other:?}"),
    }
    assert_eq!(wf.shape("t"), vec![3, 4]);
    assert_eq!(wf.shape("nope"), Vec::<usize>::new());
    assert_eq!(schema::extent(&wf, "t", 1), 4);
}

#[test]
fn unusable_tensors_are_refused() {
    let bytes = fixture();
    let wf = WeightFile::open("bad", &bytes).expect("open");
    assert!(wf.can_load("t", 2).is_ok());
    assert!(wf.can_gather("t").is_ok());
    match wf.tensor1("i") {
        Err(TtsError::TensorDtype { name, dtype }) => {
            assert_eq!((name.as_str(), dtype.as_str()), ("i", "I8"))
        }
        other => panic!("expected TensorDtype, got {other:?}"),
    }
    match wf.tensor3("t") {
        Err(TtsError::TensorShape { expected, got, .. }) => {
            assert_eq!(expected, "3D");
            assert_eq!(got, vec![3, 4]);
        }
        other => panic!("expected TensorShape, got {other:?}"),
    }
    assert!(matches!(
        wf.tensor1("nope"),
        Err(TtsError::MissingTensor { .. })
    ));
    assert!(wf.try_tensor1("nope").expect("absent is fine").is_none());
    assert!(wf.try_tensor1("b").expect("b").is_some());
    assert!(wf.try_tensor1("t").is_err());
    assert!(wf.can_load("nope", 1).is_err());
    assert!(wf.can_gather("b").is_err());
}

#[test]
fn gathering_copies_rows() {
    let table = HostTable::new(vec![1, 2, 3, 4, 5, 6], 3, 2).expect("a whole table");
    assert_eq!(table.gather(&[2, 0, 2]).unwrap(), vec![5, 6, 1, 2, 5, 6]);
    assert_eq!(table.gather(&[]).unwrap(), Vec::<u16>::new());
    let err = table.gather(&[0, 3, 9]).unwrap_err();
    assert_eq!(
        err.message(),
        "invalid prompt: text token id 3 is out of range (3 rows)"
    );
    assert!(HostTable::new(vec![1, 2, 3], 2, 2).is_none());
    assert!(HostTable::new(vec![], usize::MAX, 2).is_none());
}
