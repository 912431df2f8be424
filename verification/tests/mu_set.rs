use diffusion_solver::mu_set::{accept, insert_value, mu_set_from_values, parse_mu_set, space, MuSetError};

fn decimal(text: &str) -> Option<u32> {
    text.parse::<f32>().ok().map(|v| v.to_bits())
}

fn bits(v: f32) -> u32 {
    v.to_bits()
}

fn numbers(values: &[f32]) -> Vec<u32> {
    values.iter().map(|v| v.to_bits()).collect()
}

#[test]
fn parse_sorts_and_removes_duplicates() {
    assert_eq!(parse_mu_set("10,2,2,5", &decimal), Ok(numbers(&[2.0, 5.0, 10.0])));
}

#[test]
fn parse_refuses_a_negative_entry() {
    assert_eq!(parse_mu_set("-1", &decimal), Err(MuSetError::Negative));
    assert_eq!(parse_mu_set("2,5,-0.5,10", &decimal), Err(MuSetError::Negative));
    assert_eq!(parse_mu_set("-inf", &decimal), Err(MuSetError::Negative));
}

#[test]
fn parse_refuses_an_empty_list() {
    assert_eq!(parse_mu_set("", &decimal), Err(MuSetError::Empty));
    assert_eq!(parse_mu_set("   ", &decimal), Err(MuSetError::Empty));
    assert_eq!(parse_mu_set(",", &decimal), Err(MuSetError::Empty));
    assert_eq!(parse_mu_set(" , ,\t,", &decimal), Err(MuSetError::Empty));
}

#[test]
fn parse_refuses_what_is_not_a_number() {
    assert_eq!(parse_mu_set("abc", &decimal), Err(MuSetError::Malformed));
    assert_eq!(parse_mu_set("1,2x,3", &decimal), Err(MuSetError::Malformed));
    assert_eq!(parse_mu_set("1 2", &decimal), Err(MuSetError::Malformed));
    assert_eq!(parse_mu_set("nan", &decimal), Err(MuSetError::NotANumber));
    assert_eq!(parse_mu_set("1,NaN,2", &decimal), Err(MuSetError::NotANumber));
}

#[test]
fn parse_reports_the_first_fault() {
    assert_eq!(parse_mu_set("-1,abc", &decimal), Err(MuSetError::Negative));
    assert_eq!(parse_mu_set("abc,-1", &decimal), Err(MuSetError::Malformed));
    assert_eq!(parse_mu_set("nan,-1,abc", &decimal), Err(MuSetError::NotANumber));
    assert_eq!(parse_mu_set("1,,x", &decimal), Err(MuSetError::Malformed));
}

#[test]
fn parse_trims_and_passes_over_empty_entries() {
    assert_eq!(parse_mu_set(" 2 , 5 ,10 ", &decimal), Ok(numbers(&[2.0, 5.0, 10.0])));
    assert_eq!(parse_mu_set("2,,5,", &decimal), Ok(numbers(&[2.0, 5.0])));
    assert_eq!(parse_mu_set(",,7", &decimal), Ok(numbers(&[7.0])));
    assert_eq!(parse_mu_set("\t3\n,\u{a0}1\u{3000}", &decimal), Ok(numbers(&[1.0, 3.0])));
    assert_eq!(parse_mu_set("2,5,10,20", &decimal), Ok(numbers(&[2.0, 5.0, 10.0, 20.0])));
}

#[test]
fn parse_accepts_other_notations_of_a_number() {
    assert_eq!(parse_mu_set("1e1,10.0,0.5,5e-1,+2", &decimal), Ok(numbers(&[0.5, 2.0, 10.0])));
    assert_eq!(parse_mu_set("inf,3", &decimal), Ok(numbers(&[3.0, f32::INFINITY])));
    assert_eq!(parse_mu_set("0", &decimal), Ok(numbers(&[0.0])));
}

#[test]
fn parse_hands_each_entry_to_the_reader() {
    let seen = std::cell::RefCell::new(Vec::<String>::new());
    let reader = |text: &str| {
        seen.borrow_mut().push(text.to_string());
        Some(bits(text.len() as f32))
    };
    let set = parse_mu_set(" aaa , b,, cc ,ü", &reader);
    assert_eq!(set, Ok(numbers(&[1.0, 2.0, 3.0])));
    assert_eq!(*seen.borrow(), vec!["aaa", "b", "cc", "ü"]);
}

#[test]
fn the_two_zeros_are_one_number() {
    assert_eq!(parse_mu_set("0,-0", &decimal), Ok(vec![bits(0.0)]));
    assert_eq!(parse_mu_set("-0,0,1", &decimal), Ok(vec![bits(-0.0), bits(1.0)]));
}

#[test]
fn mu_set_from_values_sorts_into_a_set() {
    assert_eq!(mu_set_from_values(&numbers(&[10.0, 2.0, 2.0, 5.0])), Ok(numbers(&[2.0, 5.0, 10.0])));
    assert_eq!(mu_set_from_values(&numbers(&[])), Ok(vec![]));
    assert_eq!(mu_set_from_values(&numbers(&[3.0, 1.0, 2.0, 1.0, 3.0])), Ok(numbers(&[1.0, 2.0, 3.0])));
    assert_eq!(mu_set_from_values(&numbers(&[1.0, -2.0, f32::NAN])), Err(MuSetError::Negative));
    assert_eq!(mu_set_from_values(&numbers(&[1.0, f32::NAN, -2.0])), Err(MuSetError::NotANumber));
}

#[test]
fn mu_set_from_values_agrees_with_sort_and_dedup() {
    let mut x: u32 = 0x9E37_79B9;
    for round in 0..200 {
        let len = round % 9;
        let mut values: Vec<f32> = Vec::new();
        for _ in 0..len {
            x ^= x << 13;
            x ^= x >> 17;
            x ^= x << 5;
            values.push((x % 7) as f32 * 0.5);
        }
        let mut want = values.clone();
        want.sort_by(|a, b| a.partial_cmp(b).unwrap());
        want.dedup();
        assert_eq!(mu_set_from_values(&numbers(&values)), Ok(numbers(&want)), "{values:?}");
    }
}

#[test]
fn insert_value_keeps_the_order() {
    let mut set = numbers(&[1.0, 3.0, 5.0]);
    insert_value(&mut set, bits(4.0));
    assert_eq!(set, numbers(&[1.0, 3.0, 4.0, 5.0]));
    insert_value(&mut set, bits(0.0));
    assert_eq!(set, numbers(&[0.0, 1.0, 3.0, 4.0, 5.0]));
    insert_value(&mut set, bits(9.0));
    assert_eq!(set, numbers(&[0.0, 1.0, 3.0, 4.0, 5.0, 9.0]));
    insert_value(&mut set, bits(3.0));
    insert_value(&mut set, bits(-0.0));
    assert_eq!(set, numbers(&[0.0, 1.0, 3.0, 4.0, 5.0, 9.0]));
}

#[test]
fn space_agrees_with_the_standard_library() {
    for code in 0..=0x10FFFFu32 {
        if let Some(c) = char::from_u32(code) {
            assert_eq!(space(c), c.is_whitespace(), "U+{code:04X}");
        }
    }
}

#[test]
fn entries_agree_with_split_and_trim() {
    let alphabet = [',', ',', ' ', '\t', 'a', '1', '.', '\u{a0}', 'é', '\u{2003}', '-', '\n'];
    let mut x: u32 = 0xC0FF_EE11;
    for round in 0..600 {
        let len = round % 14;
        let mut text = String::new();
        for _ in 0..len {
            x ^= x << 13;
            x ^= x >> 17;
            x ^= x << 5;
            text.push(alphabet[(x % alphabet.len() as u32) as usize]);
        }
        let seen = std::cell::RefCell::new(Vec::<String>::new());
        let reader = |entry: &str| {
            seen.borrow_mut().push(entry.to_string());
            Some(1.0f32.to_bits())
        };
        let result = parse_mu_set(&text, &reader);
        let want: Vec<String> =
            text.split(',').map(|p| p.trim()).filter(|p| !p.is_empty()).map(String::from).collect();
        assert_eq!(*seen.borrow(), want, "{text:?}");
        if want.is_empty() {
            assert_eq!(result, Err(MuSetError::Empty));
        } else {
            assert_eq!(result, Ok(vec![1.0f32.to_bits()]));
        }
    }
}

#[test]
fn accept_takes_numbers_that_are_not_below_zero() {
    assert_eq!(accept(None), Err(MuSetError::Malformed));
    assert_eq!(accept(Some(bits(-1.0))), Err(MuSetError::Negative));
    assert_eq!(accept(Some(bits(f32::NEG_INFINITY))), Err(MuSetError::Negative));
    assert_eq!(accept(Some(bits(f32::NAN))), Err(MuSetError::NotANumber));
    assert_eq!(accept(Some(bits(-f32::NAN))), Err(MuSetError::NotANumber));
    assert_eq!(accept(Some(bits(0.0))), Ok(bits(0.0)));
    assert_eq!(accept(Some(bits(-0.0))), Ok(bits(-0.0)));
    assert_eq!(accept(Some(bits(2.5))), Ok(bits(2.5)));
    assert_eq!(accept(Some(bits(f32::INFINITY))), Ok(bits(f32::INFINITY)));
}
