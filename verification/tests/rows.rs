use boolstack::rows::{bits, power_of_two, spell, Values};

fn number(row: &[bool]) -> usize {
    row.iter().fold(0, |acc, b| 2 * acc + usize::from(*b))
}

#[test]
fn tables_have_two_to_the_n_rows() {
    for n in 0..=6usize {
        let table = Values::genvalues(n);
        assert_eq!(table.inputs, n);
        assert_eq!(table.values.len(), 1usize << n);
        for row in &table.values {
            assert_eq!(row.len(), n);
        }
    }
}

#[test]
fn rows_descend_and_are_distinct() {
    for n in 0..=6usize {
        let table = Values::genvalues(n);
        for (r, row) in table.values.iter().enumerate() {
            assert_eq!(number(row), (1usize << n) - 1 - r);
        }
        for a in 0..table.values.len() {
            for b in (a + 1)..table.values.len() {
                assert_ne!(table.values[a], table.values[b]);
                assert!(number(&table.values[a]) > number(&table.values[b]));
            }
        }
    }
}

#[test]
fn table_over_no_inputs_is_one_empty_row() {
    let table = Values::genvalues(0);
    assert_eq!(table.values, vec![Vec::<bool>::new()]);
}

#[test]
fn table_over_two_inputs() {
    let table = Values::genvalues(2);
    assert_eq!(
        table,
        Values {
            inputs: 2,
            values: vec![
                vec![true, true],
                vec![true, false],
                vec![false, true],
                vec![false, false],
            ],
        }
    );
}

#[test]
fn table_over_three_inputs_starts_and_ends_as_expected() {
    let table = Values::genvalues(3);
    assert_eq!(table.values[0], vec![true, true, true]);
    assert_eq!(table.values[1], vec![true, true, false]);
    assert_eq!(table.values[4], vec![false, true, true]);
    assert_eq!(table.values[7], vec![false, false, false]);
}

#[test]
fn powers_of_two() {
    assert_eq!(power_of_two(0), 1);
    assert_eq!(power_of_two(1), 2);
    assert_eq!(power_of_two(10), 1024);
    assert_eq!(power_of_two(31), 1usize << 31);
}

#[test]
fn bits_are_most_significant_first() {
    assert_eq!(bits(0, 0), Vec::<bool>::new());
    assert_eq!(bits(5, 3), vec![true, false, true]);
    assert_eq!(bits(5, 4), vec![false, true, false, true]);
    assert_eq!(bits(6, 3), vec![true, true, false]);
    assert_eq!(bits(13, 2), vec![false, true]);
}

#[test]
fn spell_reads_bits_back() {
    assert_eq!(spell(&vec![]), 0);
    assert_eq!(spell(&vec![true, false, true]), 5);
    assert_eq!(spell(&vec![false, false, true, true]), 3);
    for v in 0..64usize {
        assert_eq!(spell(&bits(v, 6)), v);
    }
}
