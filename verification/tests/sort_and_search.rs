use dsalib::single_pattern_match::brute_force;
use dsalib::sort::bubble_sort;
use dsalib::sort::insert_sort;
use dsalib::sort::select_sort;
use rand::thread_rng;
use rand::Rng;

fn gen_ranom_vector() -> (Vec<isize>, Vec<isize>) {
    let mut v1 = Vec::new();
    let mut v2 = Vec::new();
    for _ in 0..10000 {
        let n = thread_rng().gen();
        v1.push(n);
        v2.push(n);
    }
    (v1, v2)
}

#[test]
fn test_bubble_sort() {
    let (mut test, mut standard) = gen_ranom_vector();
    standard.sort();
    bubble_sort(&mut test);
    assert_eq!(test, standard);
}

#[test]
fn test_select_sort() {
    let (mut test, mut standard) = gen_ranom_vector();
    standard.sort();
    select_sort(&mut test);
    assert_eq!(test, standard);
}

#[test]
fn test_insert_sort() {
    let (mut test, mut standard) = gen_ranom_vector();
    standard.sort();
    insert_sort(&mut test);
    assert_eq!(test, standard);
}

#[test]
fn test_sorts_on_fixed_values() {
    let mut a = vec![5isize, -3, 9, 0, 5, 2];
    bubble_sort(&mut a);
    assert_eq!(a, vec![-3, 0, 2, 5, 5, 9]);
    let mut b = vec![1isize];
    select_sort(&mut b);
    assert_eq!(b, vec![1]);
    let mut c: Vec<isize> = vec![];
    insert_sort(&mut c);
    assert_eq!(c, vec![]);
    let mut d = vec![3isize, 2, 1];
    insert_sort(&mut d);
    assert_eq!(d, vec![1, 2, 3]);
}

fn gen_text_and_patten() -> (String, String, Vec<usize>) {
    let gen_character = || {
        let offset = thread_rng().gen::<u8>();
        let r = thread_rng().gen::<u8>() % 3;
        if r % 3 == 0 {
            'a' as u8 + (offset % 26)
        } else if r % 3 == 1 {
            'A' as u8 + (offset % 26)
        } else {
            '0' as u8 + (offset % 10)
        }
    };
    const BASE: usize = 1000;
    let mut patten = Vec::<u8>::new();
    let mut text = Vec::<u8>::new();
    let mut index = Vec::new();
    let patten_len = thread_rng().gen_range(BASE..BASE * 10);
    for _ in 0..patten_len {
        patten.push(gen_character());
    }
    let round = 3 + thread_rng().gen::<usize>() % 10;
    for _ in 0..round {
        if thread_rng().gen::<usize>() % round == 0 {
            for u in patten.iter() {
                text.push(*u);
            }
        } else {
            for _ in 0..thread_rng().gen_range(BASE * 100..BASE * 1000) {
                text.push(gen_character());
            }
        }
    }
    let text = String::from_utf8(text).unwrap();
    let patten = String::from_utf8(patten).unwrap();
    let mut start = 0;
    while let Some(i) = text[start..].find(&patten) {
        index.push(start + i);
        start += i + 1;
    }
    (text, patten, index)
}

#[test]
fn test_brute_force() {
    let (text, pattern, index) = gen_text_and_patten();
    let result = brute_force(&text, &pattern);
    assert_eq!(result, index);
}

#[test]
fn test_brute_force_on_fixed_text() {
    assert_eq!(brute_force("abcabcab", "abc"), vec![0, 3]);
    assert_eq!(brute_force("aaaa", "aa"), vec![0, 1, 2]);
    assert_eq!(brute_force("abc", "abcd"), Vec::<usize>::new());
    assert_eq!(brute_force("abc", "xyz"), Vec::<usize>::new());
}
