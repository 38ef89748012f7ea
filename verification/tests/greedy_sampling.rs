//! Greedy selection with a repetition penalty.

use lfm2_moe::greedy::{GreedySampler, Logits, SampleError, Scores};
use lfm2_moe::tensor::{DType, Device};

fn sampler(device: Device, vocab: usize, history: &[u32], penalty: f32) -> Result<GreedySampler, SampleError> {
    GreedySampler::new(&device, vocab, &history.to_vec(), penalty.to_bits()).map(|(s, _)| s)
}

fn info(n: usize) -> Logits {
    Logits { device: Device::Cpu, dtype: DType::F32, elem_count: n, contiguous: true }
}

fn scores(values: &[f32], penalty: f32) -> Scores {
    Scores::new(
        values.iter().map(|v| v.to_bits()).collect(),
        // A raw value that is no number is refused before its product is read.
        values.iter().map(|v| if v.is_finite() { v * penalty } else { 0. }.to_bits()).collect(),
        values.iter().map(|v| if v.is_finite() { v / penalty } else { 0. }.to_bits()).collect(),
    )
    .unwrap()
}

fn sample(s: &mut GreedySampler, values: &[f32], penalty: f32) -> Result<u32, SampleError> {
    s.sample(&info(values.len()), &scores(values, penalty))
}

#[test]
fn greedy_contract_cpu() {
    let device = Device::Cpu;
    // Cross reduction tiles, repeated prompt IDs, sign-aware penalty, and ties.
    let mut values = vec![-10f32; 128000];
    values[3] = 1.02;
    values[70000] = 1.;
    values[90000] = 1.;
    let mut s = sampler(device, values.len(), &[3, 3], 1.05).unwrap();
    let before = values.clone();
    assert_eq!(sample(&mut s, &values, 1.05), Ok(70000));
    assert_eq!(sample(&mut s, &values, 1.05), Ok(90000));
    assert_eq!(sample(&mut s, &values, 1.05), Ok(3));
    assert_eq!(values, before, "logits must be immutable");
    let mut a = sampler(device, 2, &[0, 0], 1.05).unwrap();
    assert_eq!(sample(&mut a, &[-1f32, -1.02], 1.05), Ok(1));
    // A failed selection must not accept any token into the history.
    let mut a = sampler(device, 3, &[], 1.05).unwrap();
    for bad in [f32::NAN, f32::INFINITY, f32::NEG_INFINITY] {
        assert_eq!(sample(&mut a, &[1.02f32, bad, 1.], 1.05), Err(SampleError::Nonfinite));
    }
    assert_eq!(sample(&mut a, &[1.02f32, 1., 0.], 1.05), Ok(0));
    assert_eq!(sample(&mut a, &[1f32, 2.], 1.05), Err(SampleError::InvalidLogits));
    for penalty in [0f32, -1., f32::NAN, f32::INFINITY] {
        assert_eq!(sampler(device, 3, &[], penalty).unwrap_err(), SampleError::InvalidSettings);
    }
    assert_eq!(sampler(device, 3, &[3], 1.05).unwrap_err(), SampleError::HistoryOutside);
    assert_eq!(sampler(device, 0, &[], 1.05).unwrap_err(), SampleError::InvalidSettings);
    let mut stride_sampler = sampler(device, 6, &[], 1.05).unwrap();
    let strided = Logits { contiguous: false, ..info(6) };
    assert_eq!(
        stride_sampler.sample(&strided, &scores(&[0.; 6], 1.05)),
        Err(SampleError::InvalidLogits)
    );
    // Preserve the raw-finite policy, including IEEE overflow after a penalty.
    let mut extreme = sampler(device, 2, &[0, 1], 2.).unwrap();
    assert_eq!(sample(&mut extreme, &[-f32::MAX, -f32::MAX], 2.), Ok(0));
    let offset = [99f32, 0., 1., 1., 99.];
    let mut off = sampler(device, 3, &[], 1.).unwrap();
    assert_eq!(sample(&mut off, &offset[1..4], 1.), Ok(1));
    assert_eq!(sample(&mut off, &offset[1..4], 1.), Ok(1));
    for n in [1, 255, 256, 1023, 1024, 1025, 4097] {
        let mut values = vec![-5f32; n];
        values[n - 1] = -1.;
        let mut s = sampler(device, n, &[], 1.05).unwrap();
        assert_eq!(sample(&mut s, &values, 1.05), Ok((n - 1) as u32));
        values[n - 1] = f32::NAN;
        assert_eq!(sample(&mut s, &values, 1.05), Err(SampleError::Nonfinite));
    }
    // An independent branch starts from prompt history, not another's output.
    let mut again = sampler(device, 128000, &[3, 3], 1.05).unwrap();
    assert_eq!(sample(&mut again, &values, 1.05), Ok(70000));
}

#[test]
fn logits_of_another_device_or_type_are_refused() {
    let mut s = sampler(Device::Cpu, 2, &[], 1.).unwrap();
    let good = scores(&[0., 1.], 1.);
    let elsewhere = Logits { device: Device::Other(1), ..info(2) };
    assert_eq!(s.sample(&elsewhere, &good), Err(SampleError::InvalidLogits));
    let half = Logits { dtype: DType::F16, ..info(2) };
    assert_eq!(s.sample(&half, &good), Err(SampleError::InvalidLogits));
    assert_eq!(s.sample(&info(2), &good), Ok(1));
}

#[test]
fn both_zeros_tie_and_the_smallest_id_wins() {
    let mut s = sampler(Device::Cpu, 3, &[], 1.).unwrap();
    assert_eq!(sample(&mut s, &[-1., -0., 0.], 1.), Ok(1));
    let mut s = sampler(Device::Cpu, 3, &[], 1.).unwrap();
    assert_eq!(sample(&mut s, &[-1., 0., -0.], 1.), Ok(1));
}

#[test]
fn the_device_keeps_its_own_history() {
    let (s, marks) = GreedySampler::new(&Device::Rocm(0), 4097, &vec![0, 4096, 0], 1.05f32.to_bits()).unwrap();
    let marks = marks.unwrap();
    assert_eq!(marks.len(), 4097);
    assert_eq!((marks[0], marks[1], marks[4096]), (1, 0, 1));
    assert_eq!(s.scan_tiles(), Some(5));
    let logits = Logits { device: Device::Rocm(0), ..info(4097) };
    assert_eq!(s.sample_rocm(&logits, 12), Ok(12));
    assert_eq!(s.sample_rocm(&logits, u32::MAX), Err(SampleError::Nonfinite));
    assert_eq!(s.sample_rocm(&info(4097), 12), Err(SampleError::InvalidLogits));
    assert_eq!(sampler(Device::Cpu, 3, &[], 1.).unwrap().scan_tiles(), None);
}

#[test]
fn scores_without_a_product_per_logit_are_not_made() {
    assert!(Scores::new(vec![0, 0], vec![0], vec![0, 0]).is_none());
    assert!(Scores::new(vec![0], vec![f32::NAN.to_bits()], vec![0]).is_none());
    assert!(Scores::new(vec![0], vec![f32::INFINITY.to_bits()], vec![0]).is_some());
}

#[test]
fn patterns_order_as_their_numbers_do() {
    let numbers = [
        f32::NEG_INFINITY,
        -f32::MAX,
        -1.5,
        -f32::MIN_POSITIVE,
        -1e-45,
        0.,
        1e-45,
        1.,
        2.5,
        f32::MAX,
        f32::INFINITY,
    ];
    for a in numbers {
        for b in numbers {
            let (ka, kb) = (lfm2_moe::ieee::order_key(a.to_bits()), lfm2_moe::ieee::order_key(b.to_bits()));
            assert_eq!(ka < kb, a < b, "{a} {b}");
        }
        assert_eq!(lfm2_moe::ieee::is_finite(a.to_bits()), a.is_finite());
        assert_eq!(lfm2_moe::ieee::is_negative(a.to_bits()), a < 0.);
    }
    assert_eq!(
        lfm2_moe::ieee::order_key((-0f32).to_bits()),
        lfm2_moe::ieee::order_key(0f32.to_bits())
    );
    assert!(lfm2_moe::ieee::is_nan(f32::NAN.to_bits()));
    assert!(!lfm2_moe::ieee::is_negative(f32::NAN.to_bits()));
}
