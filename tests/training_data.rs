use neuro::training_data::{TrainingData, TrainingDataError};

fn xor_rows() -> (Vec<Vec<f64>>, Vec<Vec<f64>>) {
    let inputs = vec![
        vec![1.0, 1.0],
        vec![1.0, 0.0],
        vec![0.0, 1.0],
        vec![0.0, 0.0],
    ];
    let targets = vec![vec![0.0], vec![1.0], vec![1.0], vec![0.0]];
    (inputs, targets)
}

#[test]
fn shuffle() {
    let (inputs, targets) = xor_rows();
    let training_data = TrainingData::new(inputs.clone(), targets.clone()).unwrap();
    let shuffled = training_data.shuffle_with(&vec![1, 2, 3, 3]);
    assert_ne!(shuffled.inputs, inputs);
    assert_ne!(shuffled.targets, targets);
    assert!(shuffled.inputs.contains(&inputs[0]));
    assert!(shuffled.inputs.contains(&inputs[1]));
    assert!(shuffled.inputs.contains(&inputs[2]));
    assert!(shuffled.inputs.contains(&inputs[3]));
    assert!(shuffled.targets.contains(&targets[0]));
    assert!(shuffled.targets.contains(&targets[1]));
    assert!(shuffled.targets.contains(&targets[2]));
    assert!(shuffled.targets.contains(&targets[3]));
}

#[test]
fn shuffle_with_follows_the_draws() {
    let (inputs, targets) = xor_rows();
    let data = TrainingData::new(inputs.clone(), targets.clone()).unwrap();
    let shuffled = data.shuffle_with(&vec![1, 2, 3, 3]);
    assert_eq!(shuffled.inputs, vec![inputs[1].clone(), inputs[2].clone(), inputs[3].clone(), inputs[0].clone()]);
    assert_eq!(shuffled.targets, vec![targets[1].clone(), targets[2].clone(), targets[3].clone(), targets[0].clone()]);
}

#[test]
fn random_shuffle_keeps_pairs() {
    let (inputs, targets) = xor_rows();
    for _ in 0..20 {
        let data = TrainingData::new(inputs.clone(), targets.clone()).unwrap();
        let shuffled = data.shuffle();
        assert_eq!(shuffled.inputs.len(), 4);
        let mut got: Vec<(Vec<f64>, Vec<f64>)> = Vec::new();
        for i in 0..4 {
            got.push((shuffled.inputs[i].clone(), shuffled.targets[i].clone()));
        }
        for i in 0..4 {
            let pair = (inputs[i].clone(), targets[i].clone());
            assert!(got.contains(&pair));
        }
    }
}

#[test]
fn random_shuffle_moves_rows_sometimes() {
    let inputs: Vec<Vec<i64>> = (0..8).map(|i| vec![i]).collect();
    let targets: Vec<Vec<i64>> = (0..8).map(|i| vec![-i]).collect();
    let mut moved = false;
    for _ in 0..50 {
        let data = TrainingData::new(inputs.clone(), targets.clone()).unwrap();
        if data.shuffle().inputs != inputs {
            moved = true;
        }
    }
    assert!(moved);
}

#[test]
fn new_refuses_unequal_lengths() {
    let inputs = vec![vec![1.0], vec![2.0], vec![3.0]];
    let targets = vec![vec![1.0], vec![2.0], vec![3.0], vec![4.0]];
    assert!(matches!(TrainingData::new(inputs, targets), Err(TrainingDataError::SizeMismatch)));
}

#[test]
fn empty_data_shuffles_to_empty() {
    let data: TrainingData<f64> = TrainingData::new(vec![], vec![]).unwrap();
    let shuffled = data.shuffle();
    assert!(shuffled.inputs.is_empty() && shuffled.targets.is_empty());
}
