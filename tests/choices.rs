use torrent_bootstrap::choices::{ChoiceConsumer, ChoiceConsumerEntry, ChoiceGenerator};

#[test]
pub fn exact_combinations() {
    let choices: &[usize] = &[2, 2, 4, 5];
    let mut generator = ChoiceGenerator::empty();
    let mut consumer = ChoiceConsumer::empty();

    generator.reset_from(choices, 5);

    let mut actual_count: usize = 0;
    let mut generator_count = 0;

    while !generator.ended() {
        generator.get(&mut consumer);
        generator_count += 1;

        let mut total = 1;
        for index in 0..consumer.len() {
            let entry = consumer.get(index);
            let size = match entry {
                ChoiceConsumerEntry::Mask(_) => 1,
                ChoiceConsumerEntry::AllRange(all_range) => all_range.get_end(),
            };
            total *= size;

        }
        actual_count += total;

        generator.next();
    }

    assert_eq!(5, generator_count);
    assert_eq!(80, actual_count);
}

#[test]
pub fn odd_combinations_cant_fit() {
    let choices: &[usize] = &[2, 2, 4, 5];
    let mut generator = ChoiceGenerator::empty();

    generator.reset_from(choices, 80);

    let mut actual_count: usize = 0;

    while !generator.ended() {
        actual_count += 1;
        generator.next();
    }

    assert_eq!(80, actual_count);
}

#[test]
pub fn odd_combinations() {
    let choices: &[usize] = &[2, 2, 4, 5];
    let mut generator = ChoiceGenerator::empty();
    let mut consumer = ChoiceConsumer::empty();

    generator.reset_from(choices, 3);

    let mut actual_count: usize = 0;
    let mut generator_count = 0;

    while !generator.ended() {
        generator.get(&mut consumer);
        generator_count += 1;

        let mut total = 1;
        println!();

        for index in 0..consumer.len() {
            let entry = consumer.get(index);
            let size = match entry {
                ChoiceConsumerEntry::Mask(mask) => {
                    println!("[{}] ", mask);
                    1
                },
                ChoiceConsumerEntry::AllRange(all_range) => {
                    println!("[{}..{}] ", all_range.get_start(), all_range.get_end());
                    all_range.get_end()
                },
            };
            total *= size;

        }
        actual_count += total;

        generator.next();
    }

    assert_eq!(4, generator_count);
    assert_eq!(80, actual_count);
}

#[test]
pub fn even_combinations() {
    let choices: &[usize] = &[2, 2, 4, 5];
    let mut generator = ChoiceGenerator::empty();
    let mut result = ChoiceConsumer::empty();

    generator.reset_from(choices, 4);

    let mut actual_count: usize = 0;

    while !generator.ended() {
        actual_count += 1;
        generator.get(&mut result);
        generator.next();
    }

    assert_eq!(4, actual_count);
}

#[test]
pub fn empty_combinations() {
    let choices: &[usize] = &[];
    let mut generator = ChoiceGenerator::empty();
    let mut consumer = ChoiceConsumer::empty();

    generator.reset_from(choices, 2);

    let mut actual_count: usize = 0;
    let mut generator_count = 0;

    while !generator.ended() {
        generator.get(&mut consumer);
        generator_count += 1;

        let mut total = 1;
        for index in 0..consumer.len() {
            let entry = consumer.get(index);
            let size = match entry {
                ChoiceConsumerEntry::Mask(_) => 1,
                ChoiceConsumerEntry::AllRange(all_range) => all_range.get_end(),
            };
            total *= size;

        }
        actual_count += total;

        generator.next();
    }

    assert_eq!(0, generator_count);
    assert_eq!(0, actual_count);
}

#[test]
pub fn one_combination() {
    let choices: &[usize] = &[1];
    let mut generator = ChoiceGenerator::empty();
    let mut consumer = ChoiceConsumer::empty();

    generator.reset_from(choices, 1);

    let mut actual_count: usize = 0;
    let mut generator_count = 0;

    while !generator.ended() {
        generator.get(&mut consumer);
        generator_count += 1;

        let mut total = 1;
        for index in 0..consumer.len() {
            let entry = consumer.get(index);
            let size = match entry {
                ChoiceConsumerEntry::Mask(_) => 1,
                ChoiceConsumerEntry::AllRange(all_range) => all_range.get_end(),
            };
            total *= size;

        }
        actual_count += total;

        generator.next();
    }

    assert_eq!(1, generator_count);
    assert_eq!(1, actual_count);
}
