use half::{bf16, f16};
use llama_rs::architecture::{ArchitectureError, ArchitectureKind};
use llama_rs::backend::{
    integer_layout, partition, plan_matvec, select_kernel, thread_count, BackendConfig, BackendError,
    KernelKind, KernelPreference,
};
use llama_rs::activation::ActivationLayout;
use llama_rs::bytes;
use llama_rs::gguf::{GgufFault, GgufFile, MetadataNumber, MetadataValue};
use llama_rs::pack::{pack_block, BlockCodes};
use llama_rs::quant::{
    dot_row, scale_min_k4, value_at, ElementCode, QuantError, QuantTensor, QuantType, TensorData,
};
use llama_rs::text;

fn put_string(out: &mut Vec<u8>, value: &str) {
    out.extend_from_slice(&(value.len() as u64).to_le_bytes());
    out.extend_from_slice(value.as_bytes());
}

fn single_value(code: ElementCode) -> f32 {
    match code {
        ElementCode::F32 { bits } => f32::from_bits(bits),
        ElementCode::F16 { bits } => f16::from_bits(bits).to_f32(),
        ElementCode::BF16 { bits } => bf16::from_bits(bits).to_f32(),
        other => panic!("unexpected {other:?}"),
    }
}

#[test]
fn parses_a_minimal_v3_file() {
    let mut bytes = Vec::new();
    bytes.extend_from_slice(b"GGUF");
    bytes.extend_from_slice(&3u32.to_le_bytes());
    bytes.extend_from_slice(&1u64.to_le_bytes()); // tensors
    bytes.extend_from_slice(&1u64.to_le_bytes()); // metadata
    put_string(&mut bytes, "general.alignment");
    bytes.extend_from_slice(&4u32.to_le_bytes()); // UINT32
    bytes.extend_from_slice(&4u32.to_le_bytes());
    put_string(&mut bytes, "x");
    bytes.extend_from_slice(&2u32.to_le_bytes());
    bytes.extend_from_slice(&2u64.to_le_bytes()); // columns
    bytes.extend_from_slice(&2u64.to_le_bytes()); // rows
    bytes.extend_from_slice(&0u32.to_le_bytes()); // F32
    bytes.extend_from_slice(&0u64.to_le_bytes());
    while bytes.len() % 4 != 0 {
        bytes.push(0);
    }
    for value in [1.0f32, 2.0, 3.0, 4.0] {
        bytes.extend_from_slice(&value.to_le_bytes());
    }

    let gguf = GgufFile::open(&bytes).unwrap();
    assert_eq!(gguf.version, 3);
    let tensor = gguf.tensor("x").unwrap();
    assert_eq!(tensor.shape, [2, 2]);
    assert_eq!(tensor.to_vec_f32(&single_value), [1.0, 2.0, 3.0, 4.0]);
}

/// A header with the given numbers of tensors and metadata entries.
fn header(version: u32, tensors: u64, entries: u64) -> Vec<u8> {
    let mut out = b"GGUF".to_vec();
    out.extend_from_slice(&version.to_le_bytes());
    out.extend_from_slice(&tensors.to_le_bytes());
    out.extend_from_slice(&entries.to_le_bytes());
    out
}

fn entry(out: &mut Vec<u8>, key: &str, ty: u32, value: &[u8]) {
    put_string(out, key);
    out.extend_from_slice(&ty.to_le_bytes());
    out.extend_from_slice(value);
}

fn tensor_entry(out: &mut Vec<u8>, name: &str, dims: &[u64], ty: u32, offset: u64) {
    put_string(out, name);
    out.extend_from_slice(&(dims.len() as u32).to_le_bytes());
    for dim in dims {
        out.extend_from_slice(&dim.to_le_bytes());
    }
    out.extend_from_slice(&ty.to_le_bytes());
    out.extend_from_slice(&offset.to_le_bytes());
}

fn fault(bytes: &[u8]) -> (GgufFault, String) {
    let e = GgufFile::open(bytes).err().unwrap();
    (e.fault, e.name)
}

#[test]
fn broken_headers_are_refused() {
    assert_eq!(fault(b"GGU").0, GgufFault::Truncated { at: 0 });
    assert_eq!(fault(b"GGML0000").0, GgufFault::Magic);
    assert_eq!(fault(&header(1, 0, 0)).0, GgufFault::Version { version: 1 });
    assert_eq!(fault(&header(4, 0, 0)).0, GgufFault::Version { version: 4 });
    assert_eq!(fault(&header(3, 1_000_001, 0)).0, GgufFault::HeaderCounts);
    assert_eq!(fault(&header(3, 0, 1_000_001)).0, GgufFault::HeaderCounts);
    assert!(matches!(fault(&header(3, 1, 0)).0, GgufFault::Truncated { .. }));
    let mut bytes = header(2, 0, 0);
    bytes.resize(32, 0);
    let file = GgufFile::open(&bytes).unwrap();
    assert_eq!(file.version, 2);
    assert_eq!(file.data_offset, 32);
}

#[test]
fn broken_metadata_is_refused() {
    let with = |key: &[u8], ty: u32, value: &[u8]| {
        let mut out = header(3, 0, 1);
        out.extend_from_slice(&(key.len() as u64).to_le_bytes());
        out.extend_from_slice(key);
        out.extend_from_slice(&ty.to_le_bytes());
        out.extend_from_slice(value);
        fault(&out).0
    };
    assert_eq!(with(b"\xff", 0, &[1]), GgufFault::Utf8);
    assert_eq!(with(b"k", 99, &[1]), GgufFault::UnknownType { ty: 99 });
    let mut nested = 9u32.to_le_bytes().to_vec();
    nested.extend_from_slice(&1u64.to_le_bytes());
    assert_eq!(with(b"k", 9, &nested), GgufFault::NestedArray);
    let mut long = 0u32.to_le_bytes().to_vec();
    long.extend_from_slice(&100_000_001u64.to_le_bytes());
    assert_eq!(with(b"k", 9, &long), GgufFault::ArrayLength { len: 100_000_001 });
    let mut out = header(3, 0, 1);
    out.extend_from_slice(&(1u64 << 31).to_le_bytes());
    assert_eq!(fault(&out).0, GgufFault::StringLength { len: 1 << 31 });
    let mut out = header(3, 0, 2);
    entry(&mut out, "k", 0, &[1]);
    entry(&mut out, "k", 0, &[2]);
    assert_eq!(fault(&out), (GgufFault::DuplicateKey, "k".to_string()));
    let aligned = |alignment: u32| {
        let mut out = header(3, 0, 1);
        entry(&mut out, "general.alignment", 4, &alignment.to_le_bytes());
        fault(&out).0
    };
    assert_eq!(aligned(0), GgufFault::Alignment { alignment: 0 });
    assert_eq!(aligned(24), GgufFault::Alignment { alignment: 24 });
    assert_eq!(aligned(2 << 20), GgufFault::Alignment { alignment: 2 << 20 });
    assert_eq!(aligned(1 << 20), GgufFault::DataOffset);
}

#[test]
fn broken_tensors_are_refused() {
    let with = |dims: &[u64], ty: u32, offset: u64, room: usize| {
        let mut out = header(3, 1, 0);
        tensor_entry(&mut out, "t", dims, ty, offset);
        while out.len() % 32 != 0 {
            out.push(0);
        }
        out.resize(out.len() + room, 0);
        fault(&out)
    };
    let named = |fault: GgufFault| (fault, "t".to_string());
    assert_eq!(with(&[], 0, 0, 0), named(GgufFault::DimensionCount { count: 0 }));
    assert_eq!(with(&[1; 5], 0, 0, 0), named(GgufFault::DimensionCount { count: 5 }));
    assert_eq!(with(&[4], 77, 0, 64), named(GgufFault::UnsupportedType { value: 77 }));
    assert_eq!(with(&[1 << 40, 1 << 40], 0, 0, 0), named(GgufFault::ElementOverflow));
    assert_eq!(
        with(&[33], 8, 0, 64),
        named(GgufFault::ElementCount { quant_type: QuantType::Q8_0 })
    );
    assert_eq!(
        with(&[16, 2], 8, 0, 64),
        named(GgufFault::RowWidth { width: 16, quant_type: QuantType::Q8_0 })
    );
    assert_eq!(with(&[4], 0, u64::MAX, 64), named(GgufFault::OffsetOverflow));
    assert_eq!(with(&[4], 0, 0, 15), named(GgufFault::OutsideFile));
    let mut twice = header(3, 2, 0);
    tensor_entry(&mut twice, "t", &[1], 0, 0);
    tensor_entry(&mut twice, "t", &[1], 0, 0);
    twice.resize(256, 0);
    assert_eq!(fault(&twice), named(GgufFault::DuplicateTensor));
}

#[test]
fn metadata_is_read_by_type() {
    let mut out = header(3, 1, 7);
    entry(&mut out, "u8", 0, &[200]);
    entry(&mut out, "i16", 3, &(-5i16).to_le_bytes());
    entry(&mut out, "f32", 6, &1.5f32.to_le_bytes());
    entry(&mut out, "f64", 12, &2.5f64.to_le_bytes());
    entry(&mut out, "flag", 7, &[1]);
    let mut words = 8u32.to_le_bytes().to_vec();
    words.extend_from_slice(&2u64.to_le_bytes());
    put_string(&mut words, "a");
    put_string(&mut words, "bc");
    entry(&mut out, "words", 9, &words);
    let mut name = Vec::new();
    put_string(&mut name, "qwen2 é");
    entry(&mut out, "name", 8, &name);
    tensor_entry(&mut out, "deep", &[1, 1, 1], 0, 0);
    out.resize(512, 0);
    let file = GgufFile::open(&out).unwrap();
    assert_eq!(file.metadata_u64("u8").ok(), Some(200));
    assert_eq!(file.metadata_u64("i16").err().unwrap().fault, GgufFault::MissingInteger);
    assert_eq!(
        file.metadata_f32("f32").ok(),
        Some(MetadataNumber::Single { bits: 1.5f32.to_bits() })
    );
    assert_eq!(
        file.metadata_f32("f64").ok(),
        Some(MetadataNumber::Double { bits: 2.5f64.to_bits() })
    );
    assert_eq!(file.metadata_f32("i16").ok(), Some(MetadataNumber::Signed { value: -5 }));
    assert_eq!(file.metadata_f32("flag").err().unwrap().fault, GgufFault::MissingNumber);
    assert_eq!(file.metadata_str("name").ok(), Some("qwen2 é"));
    assert_eq!(file.metadata_str("u8").err().unwrap().fault, GgufFault::MissingText);
    let words = file.metadata.get("words").unwrap();
    assert_eq!(words.array_len(), Some(2));
    assert!(matches!(words, MetadataValue::Array { element_type: 8, len: 2 }));
    assert_eq!(file.tensor_info("deep").unwrap().dimensions, vec![1, 1, 1]);
    assert!(file.has("deep"));
    assert!(!file.has("missing"));
    let e = file.tensor("deep").err().unwrap();
    assert_eq!(e.fault, GgufFault::TooManyDimensions { count: 3 });
    let e = file.tensor("missing").err().unwrap();
    assert_eq!((e.fault, e.name.as_str()), (GgufFault::MissingTensor, "missing"));
}

#[test]
fn test_dot_f16_and_bf16_avx2() {
    let n = 64;
    let input: Vec<f32> = (0..n).map(|i| (i as f32) * 0.1 - 2.0).collect();
    let step = |sum: f32, code: ElementCode, x: f32| sum + single_value(code) * x;

    // f16
    let mut raw_f16 = Vec::with_capacity(n * 2);
    for i in 0..n {
        let h = f16::from_f32((i as f32) * 0.05 + 0.5);
        raw_f16.extend_from_slice(&h.to_bits().to_le_bytes());
    }
    let dot_f16_res = dot_row(&raw_f16, QuantType::F16, &input, 0.0, &step);
    let scalar_f16: f32 = (0..n)
        .map(|i| f16::from_f32((i as f32) * 0.05 + 0.5).to_f32() * input[i])
        .sum();
    assert!((dot_f16_res - scalar_f16).abs() < 1e-3);

    // bf16
    let mut raw_bf16 = Vec::with_capacity(n * 2);
    for i in 0..n {
        let h = bf16::from_f32((i as f32) * 0.05 + 0.5);
        raw_bf16.extend_from_slice(&h.to_bits().to_le_bytes());
    }
    let dot_bf16_res = dot_row(&raw_bf16, QuantType::BF16, &input, 0.0, &step);
    let scalar_bf16: f32 = (0..n)
        .map(|i| bf16::from_f32((i as f32) * 0.05 + 0.5).to_f32() * input[i])
        .sum();
    assert!((dot_bf16_res - scalar_bf16).abs() < 1e-3);
}

#[test]
fn ggml_types_are_known_by_number() {
    let known = [
        (0, QuantType::F32),
        (1, QuantType::F16),
        (2, QuantType::Q4_0),
        (3, QuantType::Q4_1),
        (6, QuantType::Q5_0),
        (7, QuantType::Q5_1),
        (8, QuantType::Q8_0),
        (12, QuantType::Q4K),
        (13, QuantType::Q5K),
        (14, QuantType::Q6K),
        (30, QuantType::BF16),
    ];
    for (number, ty) in known {
        assert_eq!(QuantType::from_ggml_type(number).ok(), Some(ty));
    }
    for number in [4, 5, 9, 10, 11, 15, 31, 99] {
        assert!(QuantType::from_ggml_type(number).is_err());
    }
    assert_eq!((QuantType::Q6K.block_size(), QuantType::Q6K.type_size()), (256, 210));
    assert_eq!((QuantType::Q4_1.block_size(), QuantType::Q4_1.type_size()), (32, 20));
    assert_eq!((QuantType::BF16.block_size(), QuantType::BF16.type_size()), (1, 2));
}

#[test]
fn stored_elements_decode_to_their_codes() {
    let mut q4_0 = vec![0u8; 18];
    q4_0[0] = 0x34;
    q4_0[1] = 0x12;
    q4_0[2] = 0x9f;
    assert_eq!(
        value_at(&q4_0, QuantType::Q4_0, 0),
        ElementCode::Scaled { d: 0x1234, code: 7 }
    );
    assert_eq!(
        value_at(&q4_0, QuantType::Q4_0, 16),
        ElementCode::Scaled { d: 0x1234, code: 1 }
    );
    let mut q5_1 = vec![0u8; 24];
    q5_1[2] = 0x78;
    q5_1[4] = 0b10;
    q5_1[8 + 1] = 0x03;
    assert_eq!(
        value_at(&q5_1, QuantType::Q5_1, 1),
        ElementCode::Shifted { d: 0, m: 0x78, code: 19 }
    );
    let mut q8 = vec![0u8; 34];
    q8[2 + 31] = 0x80;
    assert_eq!(
        value_at(&q8, QuantType::Q8_0, 31),
        ElementCode::Scaled { d: 0, code: -128 }
    );
    let mut scales = vec![0u8; 12];
    scales[1] = 0xc5;
    scales[5] = 0x47;
    scales[9] = 0xa3;
    assert_eq!(scale_min_k4(&scales, 0, 1), (5, 7));
    assert_eq!(scale_min_k4(&scales, 0, 5), (3 + 16 * 3, 10 + 16));
}

#[test]
fn packed_blocks_decode_to_the_codes_that_were_packed() {
    let mut codes = [0u8; 256];
    for (j, code) in codes.iter_mut().enumerate() {
        *code = (j * 7 % 16) as u8;
    }
    let scales = [1u8, 20, 63, 4, 5, 60, 33, 8];
    let mins = [9u8, 0, 17, 63, 1, 2, 48, 31];
    let mut bytes = Vec::new();
    pack_block(&BlockCodes::Q4K { d: 0x3c00, dmin: 0x2e66, scales, mins, codes }, &mut bytes);
    assert_eq!(bytes.len(), 144);
    for j in 0..256 {
        assert_eq!(
            value_at(&bytes, QuantType::Q4K, j),
            ElementCode::Grouped {
                d: 0x3c00,
                dmin: 0x2e66,
                scale: scales[j / 32],
                min: mins[j / 32],
                code: codes[j],
            }
        );
    }
    let mut six = [0u8; 256];
    for (j, code) in six.iter_mut().enumerate() {
        *code = (j * 11 % 64) as u8;
    }
    let mut signed = [0i8; 16];
    for (g, scale) in signed.iter_mut().enumerate() {
        *scale = g as i8 * 9 - 70;
    }
    let mut bytes = Vec::new();
    pack_block(&BlockCodes::Q6K { d: 7, scales: signed, codes: six }, &mut bytes);
    assert_eq!(bytes.len(), 210);
    for j in 0..256 {
        assert_eq!(
            value_at(&bytes, QuantType::Q6K, j),
            ElementCode::GroupScaled { d: 7, scale: signed[j / 16], code: six[j] as i8 - 32 }
        );
    }
    let mut five = [0u8; 32];
    let mut eight = [0i8; 32];
    for j in 0..32 {
        five[j] = (j * 5 % 32) as u8;
        eight[j] = (j as i8) * 8 - 127;
    }
    let mut bytes = Vec::new();
    pack_block(&BlockCodes::Q5_0 { d: 1, codes: five }, &mut bytes);
    pack_block(&BlockCodes::Q8_0 { d: 2, codes: eight }, &mut bytes);
    pack_block(&BlockCodes::F32 { bits: 0x0102_0304 }, &mut bytes);
    assert_eq!(bytes.len(), 22 + 34 + 4);
    for j in 0..32 {
        assert_eq!(
            value_at(&bytes[..22], QuantType::Q5_0, j),
            ElementCode::Scaled { d: 1, code: five[j] as i8 - 16 }
        );
        assert_eq!(
            value_at(&bytes[22..56], QuantType::Q8_0, j),
            ElementCode::Scaled { d: 2, code: eight[j] }
        );
    }
    assert_eq!(&bytes[56..], &[4, 3, 2, 1]);
}

#[test]
fn tensors_are_checked_against_their_bytes() {
    let make = |len: usize, shape: Vec<usize>, ty: QuantType| {
        QuantTensor::from_owned(vec![0; len], shape, ty).err()
    };
    assert_eq!(make(8, vec![2], QuantType::F32), None);
    assert_eq!(make(8, vec![], QuantType::F32), Some(QuantError::Rank));
    assert_eq!(make(8, vec![1, 1, 2], QuantType::F32), Some(QuantError::Rank));
    assert_eq!(
        make(34, vec![33], QuantType::Q8_0),
        Some(QuantError::BlockMultiple { cols: 33, quant_type: QuantType::Q8_0 })
    );
    assert_eq!(
        make(9, vec![2], QuantType::F32),
        Some(QuantError::ByteLength { got: 9, quant_type: QuantType::F32 })
    );
    assert_eq!(
        make(0, vec![usize::MAX, usize::MAX], QuantType::F32),
        Some(QuantError::ByteLength { got: 0, quant_type: QuantType::F32 })
    );
    let file: Vec<u8> = (0..40).collect();
    assert_eq!(
        QuantTensor::from_mmap(&file, 33, 8, vec![2], QuantType::F32).err(),
        Some(QuantError::RangeOutOfBounds)
    );
    let tensor = QuantTensor::from_mmap(&file, 32, 8, vec![2], QuantType::F32).unwrap();
    assert_eq!(tensor.row_data(0), &file[32..40]);
    let copy = tensor.clone();
    assert!(matches!(copy.data, TensorData::Mapped { start: 32, len: 8, .. }));
}

#[test]
fn kernels_are_parsed_and_selected() {
    assert_eq!(KernelPreference::parse("AVX2").ok(), Some(KernelPreference::Avx2));
    assert_eq!(KernelPreference::parse("auto").ok(), Some(KernelPreference::Auto));
    assert_eq!(KernelPreference::parse("Scalar").ok(), Some(KernelPreference::Scalar));
    assert_eq!(KernelPreference::parse("neon").ok(), Some(KernelPreference::Neon));
    assert!(matches!(
        KernelPreference::parse("GPU"),
        Err(BackendError::UnknownKernel { name }) if name == "gpu"
    ));
    assert!(matches!(select_kernel(KernelPreference::Auto, true, true), Ok(KernelKind::Avx2)));
    assert!(matches!(select_kernel(KernelPreference::Auto, false, true), Ok(KernelKind::Neon)));
    assert!(matches!(select_kernel(KernelPreference::Auto, false, false), Ok(KernelKind::Scalar)));
    assert!(matches!(
        select_kernel(KernelPreference::Avx2, false, true),
        Err(BackendError::Avx2Unavailable)
    ));
    assert!(matches!(
        select_kernel(KernelPreference::Neon, true, false),
        Err(BackendError::NeonUnavailable)
    ));
    assert_eq!(KernelKind::Avx2.name(), "avx2+fma");
    assert_eq!(KernelKind::Neon.name(), "neon");
    assert_eq!(KernelKind::Scalar.name(), "scalar");
    assert!(!BackendConfig::reference().integer_activations);
    assert!(BackendConfig::default().integer_activations);
    assert_eq!(BackendConfig::reference().parallel_threshold, 131_072);
    assert_eq!(thread_count(3, 8).ok(), Some(3));
    assert_eq!(thread_count(0, 8).ok(), Some(8));
    assert!(matches!(thread_count(0, 0), Err(BackendError::ZeroThreads)));
}

#[test]
fn products_are_planned() {
    let matrix = QuantTensor::from_owned(vec![0; 34 * 64], vec![64, 32], QuantType::Q8_0).unwrap();
    let plan = |kind: KernelKind, threads: usize, threshold: usize, integer: bool| {
        plan_matvec(&matrix, 32, 64, kind, threads, threshold, integer).unwrap()
    };
    assert_eq!(plan(KernelKind::Avx2, 4, 0, true).layout, ActivationLayout::Q8_32);
    assert_eq!(plan(KernelKind::Avx2, 4, 0, false).layout, ActivationLayout::Plain);
    assert_eq!(plan(KernelKind::Scalar, 4, 0, true).layout, ActivationLayout::Plain);
    assert!(plan(KernelKind::Scalar, 32, 2048, true).parallel);
    assert!(!plan(KernelKind::Scalar, 33, 2048, true).parallel);
    assert!(!plan(KernelKind::Scalar, 32, 2049, true).parallel);
    assert!(!plan(KernelKind::Scalar, 1, 0, true).parallel);
    assert!(plan_matvec(&matrix, 31, 64, KernelKind::Scalar, 1, 0, true).is_err());
    assert_eq!(
        integer_layout(KernelKind::Avx2, true, QuantType::Q4K, 300),
        ActivationLayout::Plain
    );
    assert_eq!(
        integer_layout(KernelKind::Avx2, true, QuantType::Q4K, 512),
        ActivationLayout::Q8K
    );
}

#[test]
fn shares_cover_all_rows_once() {
    for (items, threads) in [(1000, 4), (7, 3), (2, 5), (0, 2)] {
        let mut next = 0;
        for thread in 0..threads {
            let (start, end) = partition(thread, items, threads);
            assert_eq!(start, next);
            next = end;
        }
        assert_eq!(next, items);
    }
    assert_eq!(partition(1, 7, 3), (2, 4));
}

#[test]
fn architectures_are_known_by_name() {
    assert_eq!(ArchitectureKind::Qwen2.name(), "qwen2");
    assert!(matches!(ArchitectureKind::from_hf_model_type("qwen2"), Ok(ArchitectureKind::Qwen2)));
    assert!(matches!(
        ArchitectureKind::from_gguf_architecture("qwen2"),
        Ok(ArchitectureKind::Qwen2)
    ));
    assert!(matches!(
        ArchitectureKind::from_hf_model_type("llama"),
        Err(ArchitectureError::HfModelType { value }) if value == "llama"
    ));
    assert!(matches!(
        ArchitectureKind::from_gguf_architecture("Qwen2"),
        Err(ArchitectureError::GgufArchitecture { value }) if value == "Qwen2"
    ));
}

#[test]
fn texts_are_compared_searched_and_split() {
    assert!(text::equals("é", "é"));
    assert!(!text::equals("a", "ab"));
    assert!(text::contains("blk.0.attn_v.weight", "attn_v"));
    assert!(!text::contains("attn", "attn_v"));
    assert!(text::contains("x", ""));
    let mut out = String::from("n=");
    text::push_decimal(&mut out, 0);
    text::push_decimal(&mut out, u64::MAX);
    text::push_padded(&mut out, 42, 4);
    text::push_padded(&mut out, 12345, 2);
    assert_eq!(out, "n=018446744073709551615004212345");
    let parts: Vec<String> =
        text::split("a,,bé", ',').iter().map(|part| text::text_of(part)).collect();
    assert_eq!(parts, vec!["a", "", "bé"]);
}

#[test]
fn little_endian_words_and_nibbles_are_read() {
    let data = [0x12u8, 0x34, 0x56, 0x78, 0x9a, 0xbc, 0xde, 0xf0];
    assert_eq!(bytes::read_u16(&data, 1), 0x5634);
    assert_eq!(bytes::read_u32(&data, 0), 0x7856_3412);
    assert_eq!(bytes::read_u64(&data, 0), 0xf0de_bc9a_7856_3412);
    assert_eq!((bytes::low_nibble(0xa7), bytes::high_nibble(0xa7)), (7, 10));
    assert_eq!((bytes::bit(0b100, 2), bytes::bit(0b100, 1)), (1, 0));
    assert_eq!(bytes::bit_pair(0b1101_0000, 3), 3);
    assert_eq!((bytes::signed(0xff), bytes::unsigned(-1)), (-1, 0xff));
}
