//! Loading weights: arrays, archives of them, and what a checkpoint must hold.

use std::io::{Cursor, Write};

use mlx_whisper_rs::archive::{array_from_entry, name_of_array};
use mlx_whisper_rs::load_models::{
    choose_weights, dtype_size, load_npz, missing_weight, parse_npy_bytes, parse_npy_dtype,
    parse_npy_shape, weight_slots, Checkpoint, Dtype, LoadError, NpyArray, WeightsFile,
};
use mlx_whisper_rs::npz::{find_descr, find_shape};
use mlx_whisper_rs::whisper::ModelDimensions;

fn npy(header: &str, data: &[u8]) -> Vec<u8> {
    let mut bytes = b"\x93NUMPY\x01\x00".to_vec();
    bytes.extend((header.len() as u16).to_le_bytes());
    bytes.extend(header.as_bytes());
    bytes.extend(data);
    bytes
}

fn read(bytes: &[u8]) -> NpyArray {
    parse_npy_bytes(bytes).unwrap_or_else(|e| panic!("{e:?}"))
}

fn refused(bytes: &[u8]) -> LoadError {
    match parse_npy_bytes(bytes) {
        Ok(_) => panic!("the array was read"),
        Err(e) => e,
    }
}

#[test]
fn types_are_read_by_name() {
    for (name, dtype, size) in [
        ("<f2", Dtype::Float16, 2),
        ("=f2", Dtype::Float16, 2),
        ("<f4", Dtype::Float32, 4),
        ("<f8", Dtype::Float64, 8),
        ("<i2", Dtype::Int16, 2),
        ("<i4", Dtype::Int32, 4),
        ("=i8", Dtype::Int64, 8),
        ("|u1", Dtype::Uint8, 1),
        ("<u1", Dtype::Uint8, 1),
        ("<u2", Dtype::Uint16, 2),
        ("=u4", Dtype::Uint32, 4),
        ("|b1", Dtype::Bool, 1),
        (" '\"<f4\"' ", Dtype::Float32, 4),
    ] {
        assert_eq!(parse_npy_dtype(name), Ok(dtype), "{name}");
        assert_eq!(dtype_size(dtype), size, "{name}");
    }
    for name in [">f4", "f4", "", "<c8", "\t<f4"] {
        assert_eq!(parse_npy_dtype(name), Err(LoadError::UnsupportedDtype), "{name}");
    }
    assert_eq!(dtype_size(Dtype::Bfloat16), 2);
    assert_eq!(dtype_size(Dtype::Complex64), 8);
    assert_eq!(dtype_size(Dtype::Int8), 1);
    assert_eq!(dtype_size(Dtype::Uint64), 8);
}

#[test]
fn shapes_are_read_between_parentheses() {
    assert_eq!(parse_npy_shape("(1024,)"), Ok(vec![1024]));
    assert_eq!(parse_npy_shape(" (1024, 80)\n"), Ok(vec![1024, 80]));
    assert_eq!(parse_npy_shape("()"), Ok(vec![]));
    assert_eq!(parse_npy_shape("(2,,+3, -1)"), Ok(vec![2, 3, -1]));
    assert_eq!(parse_npy_shape("(x,)"), Err(LoadError::BadShapeToken));
    assert_eq!(parse_npy_shape("(2147483648,)"), Err(LoadError::BadShapeToken));
}

#[test]
fn arrays_are_read() {
    let a = read(&npy("{'descr': '<f4', 'fortran_order': False, 'shape': (2, 1), }\n", &[7; 8]));
    assert_eq!(a.dtype, Dtype::Float32);
    assert_eq!(a.shape, vec![2, 1]);
    assert_eq!(a.data, vec![7; 8]);

    // A scalar has one item, and bytes behind the items are kept.
    let a = read(&npy("{\"descr\": \"|u1\", \"shape\": ()}", &[1, 2, 3]));
    assert_eq!(a.dtype, Dtype::Uint8);
    assert_eq!(a.shape, Vec::<i32>::new());
    assert_eq!(a.data, vec![1, 2, 3]);

    // No items need no bytes.
    let a = read(&npy("{'descr': '<f8', 'shape': (0, 5)}", &[]));
    assert_eq!(a.shape, vec![0, 5]);
    assert!(a.data.is_empty());
}

#[test]
fn arrays_of_the_second_version_are_read() {
    // The header's length takes four bytes, the upper two of which are read with the header.
    let header = "{'descr': '<i4', 'shape': (1,)}";
    let mut bytes = b"\x93NUMPY\x02\x00".to_vec();
    bytes.extend((header.len() as u32).to_le_bytes());
    bytes.extend(header.as_bytes());
    bytes.extend([9, 0, 0, 0]);
    let a = read(&bytes);
    assert_eq!(a.dtype, Dtype::Int32);
    assert_eq!(a.data, vec![9, 0, 0, 0]);
    assert_eq!(refused(&bytes[..11]), LoadError::TruncatedHeader);
    assert_eq!(refused(&bytes[..20]), LoadError::TruncatedHeader);
}

#[test]
fn arrays_are_refused() {
    assert_eq!(refused(b""), LoadError::NotNpy);
    assert_eq!(refused(b"\x93NUMPX\x01\x00\x00\x00"), LoadError::NotNpy);
    assert_eq!(refused(b"\x93NUMPY\x01\x00\x00"), LoadError::NotNpy);
    assert_eq!(refused(b"\x93NUMPY\x01\x00\x05\x00abcd"), LoadError::TruncatedHeader);
    assert_eq!(refused(b"\x93NUMPY\x01\x00\x01\x00\xff"), LoadError::HeaderNotUtf8);
    for (header, error) in [
        ("{'shape': (1,)}", LoadError::NoDescr),
        ("{'descr'", LoadError::BadHeader),
        ("'descr':  ", LoadError::BadDescr),
        ("{'descr': '<f4", LoadError::BadDescr),
        ("{'descr': '<f4'}", LoadError::NoShape),
        ("{'descr': '<f4', 'shape'", LoadError::BadHeader),
        ("{'descr': '<f4', 'shape': (1", LoadError::BadShape),
        ("{'descr': '>f4', 'shape': (1,)}", LoadError::UnsupportedDtype),
        ("{'descr': '<f4', 'shape': (a,)}", LoadError::BadShapeToken),
        ("{'descr': '<f4', 'shape': (2,)}", LoadError::DataTooShort),
        ("{'descr': '<f4', 'shape': (-1,)}", LoadError::DataTooShort),
        ("{'descr': '<f4', 'shape': (2147483647, 2147483647, 2147483647)}", LoadError::DataTooShort),
    ] {
        assert_eq!(refused(&npy(header, &[0; 7])), error, "{header}");
    }
}

#[test]
fn parts_of_headers_are_found() {
    let header: Vec<char> = "{'descr' : \"<f2\", 'shape':(3, 4), 'x': 1}".chars().collect();
    assert_eq!(find_descr(&header), Ok("<f2".to_string()));
    assert_eq!(find_shape(&header), Ok("(3, 4)".to_string()));
}

#[test]
fn entries_are_named_after_their_files() {
    assert_eq!(name_of_array("encoder.conv1.weight.npy"), "encoder.conv1.weight");
    assert_eq!(name_of_array("a.npy.npy"), "a.npy");
    assert_eq!(name_of_array(".npy"), "");
    assert_eq!(name_of_array("npy"), "npy");
    assert_eq!(name_of_array("a.NPY"), "a.NPY");
    let (name, a) = array_from_entry("w.npy", &npy("{'descr': '|b1', 'shape': (1,)}", &[1]))
        .unwrap_or_else(|e| panic!("{e:?}"));
    assert_eq!(name, "w");
    assert_eq!(a.dtype, Dtype::Bool);
    assert!(matches!(array_from_entry("w.npy", b"?"), Err(LoadError::NotNpy)));
}

fn archive(entries: &[(&str, Vec<u8>)]) -> Vec<u8> {
    let mut writer = zip::ZipWriter::new(Cursor::new(Vec::new()));
    for (name, content) in entries {
        writer
            .start_file(*name, zip::write::SimpleFileOptions::default())
            .unwrap_or_else(|e| panic!("{e}"));
        writer.write_all(content).unwrap_or_else(|e| panic!("{e}"));
    }
    writer.finish().unwrap_or_else(|e| panic!("{e}")).into_inner()
}

#[test]
fn archives_are_read_in_order() {
    let bytes = archive(&[
        ("b.npy", npy("{'descr': '<i2', 'shape': (2,)}", &[1, 0, 2, 0])),
        ("a", npy("{'descr': '|u1', 'shape': ()}", &[5])),
    ]);
    let arrays = load_npz(bytes).unwrap_or_else(|e| panic!("{e:?}"));
    assert_eq!(arrays.len(), 2);
    assert_eq!(arrays[0].0, "b");
    assert_eq!(arrays[0].1.dtype, Dtype::Int16);
    assert_eq!(arrays[0].1.shape, vec![2]);
    assert_eq!(arrays[0].1.data, vec![1, 0, 2, 0]);
    assert_eq!(arrays[1].0, "a");
    assert_eq!(arrays[1].1.data, vec![5]);
    assert_eq!(load_npz(archive(&[])).map(|a| a.len()), Ok(0));
}

#[test]
fn archives_are_refused() {
    assert_eq!(load_npz(b"no archive".to_vec()).map(|a| a.len()), Err(LoadError::Archive));
    let one = npy("{'descr': '|u1', 'shape': ()}", &[5]);
    let bytes = archive(&[("a.npy", one.clone()), ("readme", b"text".to_vec())]);
    assert_eq!(load_npz(bytes).map(|a| a.len()), Err(LoadError::NotNpy));

    // Content that does not have the checksum of its entry cannot be read.
    let mut bytes = archive(&[("a.npy", one)]);
    let at = bytes.windows(4).position(|w| w == b"PK\x01\x02").unwrap_or_else(|| panic!());
    bytes[at + 16] ^= 1;
    assert_eq!(load_npz(bytes).map(|a| a.len()), Err(LoadError::Archive));
}

#[test]
fn safetensors_go_before_archives() {
    assert_eq!(choose_weights(true, true), Some(WeightsFile::Safetensors));
    assert_eq!(choose_weights(true, false), Some(WeightsFile::Safetensors));
    assert_eq!(choose_weights(false, true), Some(WeightsFile::Npz));
    assert_eq!(choose_weights(false, false), None);
    assert_eq!(WeightsFile::Safetensors.file_name(), "weights.safetensors");
    assert_eq!(WeightsFile::Npz.file_name(), "weights.npz");
}

fn dims(n_audio_layer: usize, n_text_layer: usize) -> ModelDimensions {
    ModelDimensions {
        n_mels: 80,
        n_audio_ctx: 2,
        n_audio_state: 8,
        n_audio_head: 2,
        n_audio_layer,
        n_vocab: 51865,
        n_text_ctx: 4,
        n_text_state: 8,
        n_text_head: 2,
        n_text_layer,
    }
}

fn keys(c: &Checkpoint, d: &ModelDimensions) -> Vec<(String, bool)> {
    weight_slots(c, d).into_iter().map(|s| (s.key, s.required)).collect()
}

#[test]
fn models_have_slots_for_weights() {
    let c = Checkpoint::new(&vec![], false);
    let got = keys(&c, &dims(0, 0));
    let want: Vec<(String, bool)> = [
        ("encoder.conv1.weight", true),
        ("encoder.conv1.bias", false),
        ("encoder.conv2.weight", true),
        ("encoder.conv2.bias", false),
        ("encoder.ln_post.weight", true),
        ("encoder.ln_post.bias", true),
        ("decoder.token_embedding.weight", false),
        ("decoder.positional_embedding", false),
        ("decoder.ln.weight", true),
        ("decoder.ln.bias", true),
        ("alignment_heads", false),
    ]
    .iter()
    .map(|(k, r)| (k.to_string(), *r))
    .collect();
    assert_eq!(got, want);

    let got = keys(&c, &dims(11, 1));
    assert!(got.contains(&("encoder.blocks.10.mlp_ln.bias".to_string(), true)));
    assert!(!got.contains(&("encoder.blocks.0.cross_attn.query.weight".to_string(), true)));
    assert!(got.contains(&("decoder.blocks.0.cross_attn.query.weight".to_string(), true)));
    assert!(got.contains(&("decoder.blocks.0.cross_attn_ln.weight".to_string(), true)));
    assert!(got.contains(&("decoder.blocks.0.attn.key.bias".to_string(), false)));
    // 8 for each attention layer, 2 for each norm and each linear layer.
    assert_eq!(got.len(), 11 + 11 * (8 + 2 + 2 + 2 + 2) + (8 + 2 + 8 + 2 + 2 + 2 + 2));
}

#[test]
fn quantized_modules_have_scales() {
    let names: Vec<String> = ["encoder.blocks.0.mlp1.scales", "decoder.token_embedding.scales"]
        .iter()
        .map(|n| n.to_string())
        .collect();
    let c = Checkpoint::new(&names, true);
    assert!(c.has("encoder.blocks.0.mlp1.scales"));
    assert!(!c.has("encoder.blocks.0.mlp1"));
    assert!(c.is_packed("encoder.blocks.0.mlp1"));
    assert!(!c.is_packed("encoder.blocks.0.mlp2"));
    let got = keys(&c, &dims(1, 0));
    assert!(got.contains(&("encoder.blocks.0.mlp1.biases".to_string(), true)));
    assert!(!got.contains(&("encoder.blocks.0.mlp2.biases".to_string(), true)));
    assert!(got.contains(&("decoder.token_embedding.weight".to_string(), true)));
    assert!(got.contains(&("decoder.token_embedding.biases".to_string(), true)));

    // Scales say nothing where the model is not said to be quantized.
    let c = Checkpoint::new(&names, false);
    assert!(!c.is_packed("encoder.blocks.0.mlp1"));
    assert!(keys(&c, &dims(1, 0)).contains(&("decoder.token_embedding.weight".to_string(), false)));
}

#[test]
fn the_first_missing_weight_is_found() {
    let empty = Checkpoint::new(&vec![], false);
    let d = dims(0, 0);
    assert_eq!(
        missing_weight(&empty, &weight_slots(&empty, &d)),
        Some("encoder.conv1.weight".to_string())
    );
    let names: Vec<String> = [
        "encoder.conv1.weight",
        "encoder.conv2.weight",
        "encoder.ln_post.weight",
        "encoder.ln_post.bias",
        "decoder.ln.weight",
    ]
    .iter()
    .map(|n| n.to_string())
    .collect();
    let c = Checkpoint::new(&names, false);
    assert_eq!(missing_weight(&c, &weight_slots(&c, &d)), Some("decoder.ln.bias".to_string()));
    let mut all = names;
    all.push("decoder.ln.bias".to_string());
    let c = Checkpoint::new(&all, false);
    assert_eq!(missing_weight(&c, &weight_slots(&c, &d)), None);
}
