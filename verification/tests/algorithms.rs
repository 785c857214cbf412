use rand::seq::SliceRandom;
use rand::{thread_rng, Rng};

use algorithms::algorithms::circular_queue::MyCircularQueue;
use algorithms::algorithms::sum_of_subarray_minimums::brute_force;
use algorithms::algorithms::Solution;

#[test]
fn backspace_string_compare_test() {
    assert!(Solution::backspace_compare(
        "ab#c".to_string(),
        "ad#c".to_string()
    ));
    assert!(!Solution::backspace_compare(
        "a#c".to_string(),
        "b".to_string()
    ));
}

#[test]
fn next_power_of_two_test() {
    let two: usize = 3;
    assert_eq!(4, two.next_power_of_two());
}

#[test]
fn wrapping_sub_test() {
    let b: usize = 0;
    let t: usize = 100;

    assert_eq!(100, t.wrapping_sub(b));

    let b1: usize = 0;
    let t1: usize = 0;

    assert_eq!(0, t1.wrapping_sub(b1));

    let b2: usize = 1;
    let t2: usize = 129;
    assert_eq!(128, t2.wrapping_sub(b2))
}

#[test]
fn option_replace_test() {
    let mut i32s = vec![None; 3];

    i32s[0].replace(1);

    assert_eq!(vec![Some(1), None, None], i32s);
    assert_ne!(vec![Some(3), None, None], i32s);
}

#[test]
fn option_take_test() {
    let mut i32s = vec![Some(1), Some(2), Some(3)];

    i32s[1].take();

    assert_eq!(vec![Some(1), None, Some(3)], i32s);
}

#[test]
fn my_queue_test() {}

#[test]
fn circular_queue_is_first_in_first_out() {
    let mut q = MyCircularQueue::new(3);
    assert!(q.is_empty());
    assert_eq!(-1, q.front());
    assert_eq!(-1, q.rear());
    assert!(!q.de_queue());
    assert!(q.en_queue(1));
    assert!(q.en_queue(2));
    assert!(q.en_queue(3));
    assert!(q.is_full());
    assert!(!q.en_queue(4));
    assert_eq!(1, q.front());
    assert_eq!(3, q.rear());
    assert!(q.de_queue());
    assert_eq!(2, q.front());
    assert!(q.en_queue(4));
    assert_eq!(4, q.rear());
    assert!(q.de_queue());
    assert!(q.de_queue());
    assert_eq!(4, q.front());
    assert!(q.de_queue());
    assert!(q.is_empty());
}

#[test]
fn circular_queue_of_no_slots_refuses_everything() {
    let mut q = MyCircularQueue::new(0);
    assert!(q.is_empty());
    assert!(q.is_full());
    assert!(!q.en_queue(1));
    assert!(!q.de_queue());
    assert_eq!(-1, q.front());
}

#[test]
fn find_all_duplicates_in_an_array_remove_duplicates_test() {
    let mut rng = thread_rng();
    for _ in 0..100 {
        let max = 10i32.pow(5);
        let n = rng.gen_range(1..=max);
        let rate = rng.gen::<f64>();
        let mut nums: Vec<i32> = vec![];
        let mut result: Vec<i32> = Vec::new();

        for i in 1..=n {
            let i = i as i32;
            if rng.gen_bool(rate) {
                result.push(i);
                nums.push(i);
            }
            nums.push(i);
        }

        nums.shuffle(&mut rng);
        let mut res = Solution::find_duplicates(nums);
        res.sort();
        assert_eq!(result, res);
    }
}

#[test]
fn find_duplicates_of_fixed_input() {
    let mut res = Solution::find_duplicates(vec![4, 3, 2, 7, 8, 2, 3, 1]);
    res.sort();
    assert_eq!(vec![2, 3], res);
    assert_eq!(Vec::<i32>::new(), Solution::find_duplicates(vec![1]));
}

#[test]
fn basic() {
    Solution::hanota(&mut vec![], &mut vec![], &mut vec![]);

    let mut a = vec![2];
    let mut b = vec![];
    let mut c = vec![];

    Solution::hanota(&mut a, &mut b, &mut c);

    assert!(a.is_empty());
    assert!(b.is_empty());
    assert_eq!(c, vec![2]);
}

#[test]
fn two() {
    let mut a = vec![2, 1];
    let mut b = vec![];
    let mut c = vec![];

    Solution::hanota(&mut a, &mut b, &mut c);

    assert!(a.is_empty());
    assert!(b.is_empty());
    assert_eq!(c, vec![2, 1]);
}

#[test]
fn three() {
    let mut a = vec![2, 1, 0];
    let mut b = vec![];
    let mut c = vec![];

    Solution::hanota(&mut a, &mut b, &mut c);

    assert!(a.is_empty());
    assert!(b.is_empty());
    assert_eq!(c, vec![2, 1, 0]);
}

#[test]
fn n() {
    let mut a = (1..10).rev().collect();
    let mut b = vec![];
    let mut c = vec![];

    Solution::hanota(&mut a, &mut b, &mut c);

    assert!(a.is_empty());
    assert!(b.is_empty());
    assert_eq!(c, (1..10).rev().collect::<Vec<_>>());
}

#[test]
fn last_stone_weight_test() {
    assert_eq!(
        Solution::last_stone_weight(vec![2, 7, 4, 1, 8, 1]),
        Solution::last_stone_weight_none_heap(vec![2, 7, 4, 1, 8, 1])
    )
}

#[test]
fn last_stone_weight_values() {
    assert_eq!(1, Solution::last_stone_weight(vec![2, 7, 4, 1, 8, 1]));
    assert_eq!(1, Solution::last_stone_weight_none_heap(vec![2, 7, 4, 1, 8, 1]));
    assert_eq!(0, Solution::last_stone_weight(vec![3, 3]));
    assert_eq!(0, Solution::last_stone_weight_none_heap(vec![3, 3]));
    assert_eq!(0, Solution::last_stone_weight(vec![]));
    assert_eq!(0, Solution::last_stone_weight_none_heap(vec![]));
    assert_eq!(5, Solution::last_stone_weight(vec![5]));
    assert_eq!(5, Solution::last_stone_weight_none_heap(vec![5]));
    assert_eq!(
        Solution::last_stone_weight(vec![10, 4, 2, 10, 31, 7]),
        Solution::last_stone_weight_none_heap(vec![10, 4, 2, 10, 31, 7])
    );
}

#[test]
fn majority_element_test() {
    assert_eq!(3, Solution::majority_element(vec![3, 2, 3]));
    assert_eq!(2, Solution::majority_element(vec![2, 2, 1, 1, 1, 2, 2]));
}

#[test]
fn maximum_units_on_a_truck_num_identical_pairs_test() {
    assert_eq!(
        8,
        Solution::maximum_units(vec![vec![1, 3], vec![2, 2], vec![3, 1]], 4)
    );
    assert_eq!(
        91,
        Solution::maximum_units(vec![vec![5, 10], vec![2, 5], vec![4, 7], vec![3, 9]], 10)
    );
}

#[test]
fn maximum_units_with_room_to_spare() {
    assert_eq!(14, Solution::maximum_units(vec![vec![2, 3], vec![4, 2]], 100));
    assert_eq!(0, Solution::maximum_units(vec![], 5));
}

#[test]
fn number_of_good_pairs_num_identical_pairs_test() {
    println!("{}", Solution::num_identical_pairs(vec![1, 2, 3, 1, 1, 3]));
}

#[test]
fn num_identical_pairs_values() {
    assert_eq!(4, Solution::num_identical_pairs(vec![1, 2, 3, 1, 1, 3]));
    assert_eq!(6, Solution::num_identical_pairs(vec![1, 1, 1, 1]));
    assert_eq!(0, Solution::num_identical_pairs(vec![1, 2, 3]));
}

#[test]
fn palindrome_number_test() {
    assert_eq!(true, Solution::is_palindrome(121));
    assert_eq!(false, Solution::is_palindrome(-10));
    assert_eq!(false, Solution::is_palindrome(10));
    assert_eq!(false, Solution::is_palindrome(i32::MIN));
    assert_eq!(true, Solution::is_palindrome(123321));
}

#[test]
fn palindrome_of_zero() {
    assert!(Solution::is_palindrome(0));
    assert!(Solution::is_palindrome(7));
}

#[test]
fn plus_one_test() {
    assert_eq!(vec![1, 2, 2], Solution::plus_one(vec![1, 2, 1]));
    assert_eq!(vec![1], Solution::plus_one(vec![0]));
    assert_eq!(vec![1, 0, 0], Solution::plus_one(vec![9, 9]));
}

#[test]
fn plus_one_carries_through() {
    assert_eq!(vec![1, 3, 0, 0], Solution::plus_one(vec![1, 2, 9, 9]));
    assert_eq!(vec![1], Solution::plus_one(vec![]));
}

#[test]
fn product_of_array_except_self() {
    assert_eq!(
        vec![24, 12, 8, 6],
        Solution::product_except_self(vec![1, 2, 3, 4])
    );

    assert_eq!(
        vec![0, 0, 9, 0, 0],
        Solution::product_except_self(vec![-1, 1, 0, -3, 3])
    );
}

#[test]
fn product_of_two() {
    assert_eq!(vec![5, 3], Solution::product_except_self(vec![3, 5]));
}

#[test]
fn remove_all_adjacent_duplicates_in_string_remove_duplicates_test() {
    println!("{}", Solution::remove_duplicates(String::from("abbaca")));
}

#[test]
fn remove_adjacent_duplicates_values() {
    assert_eq!("ca", Solution::remove_duplicates(String::from("abbaca")));
    assert_eq!("ay", Solution::remove_duplicates(String::from("azxxzy")));
    assert_eq!("", Solution::remove_duplicates(String::from("aa")));
}

#[test]
fn remove_duplicates_from_sorted_test() {
    {
        let mut example = vec![0, 0, 1, 1, 1, 1, 2, 3, 3];
        assert_eq!(
            7,
            Solution::remove_duplicates_remove_duplicates_from_sorted(&mut example)
        );
        assert_eq!(vec![0, 0, 1, 1, 2, 3, 3, 3, 3], example);
    }

    {
        let mut example = vec![1, 1, 1, 2, 2, 3];
        assert_eq!(
            5,
            Solution::remove_duplicates_remove_duplicates_from_sorted(&mut example)
        );
        assert_eq!(vec![1, 1, 2, 2, 3, 3], example);
    }

    {
        let mut example = vec![1, 2, 3, 3, 3, 5, 4, 4, 4];
        assert_eq!(
            7,
            Solution::remove_duplicates_remove_duplicates_from_sorted(&mut example)
        );
        assert_eq!(vec![1, 2, 3, 3, 5, 4, 4, 4, 4], example)
    }
}

#[test]
fn remove_duplicates_edge_cases() {
    let mut empty: Vec<i32> = vec![];
    assert_eq!(1, Solution::remove_duplicates_remove_duplicates_from_sorted(&mut empty));

    let mut once = vec![1, 1, 2, 3, 3, 3];
    assert_eq!(3, Solution::remove_duplicates_remove_duplicates_i_from_sorted(&mut once));
    assert_eq!(vec![1, 2, 3, 3, 3, 3], once);

    let mut low = vec![i32::MIN, i32::MIN, 0];
    assert_eq!(1, Solution::remove_duplicates_remove_duplicates_i_from_sorted(&mut low));
    assert_eq!(vec![0, i32::MIN, 0], low);
}

#[test]
fn reorganize_string_test() {
    println!("{}", Solution::reorganize_string("abcd".to_string()));
    println!("{}", Solution::reorganize_string("aab".to_string()));
    println!("{}", Solution::reorganize_string("abc".to_string()));
    println!("{}", Solution::reorganize_string("aacc".to_string()));
    println!("{}", Solution::reorganize_string("acacd".to_string()));
    println!("{}", Solution::reorganize_string("aaccdd".to_string()));
    println!("{}", Solution::reorganize_string("aaab".to_string()));
    println!("{}", Solution::reorganize_string("vvvlo".to_string()));
}

#[test]
fn reorganize_string_values() {
    assert_eq!("", Solution::reorganize_string("aaab".to_string()));
    assert_eq!("aba", Solution::reorganize_string("aab".to_string()));
    assert_eq!("vlvov", Solution::reorganize_string("vvvlo".to_string()));
    assert_eq!("acbd", Solution::reorganize_string("abcd".to_string()));
    assert_eq!("acb", Solution::reorganize_string("abc".to_string()));
    assert_eq!("acac", Solution::reorganize_string("aacc".to_string()));
    assert_eq!("acadc", Solution::reorganize_string("acacd".to_string()));
    assert_eq!("acadcd", Solution::reorganize_string("aaccdd".to_string()));
    assert_eq!("", Solution::reorganize_string("".to_string()));
}

#[test]
fn sign_test() {
    assert!(0 < Solution::reverse(10));
    assert!(Solution::reverse(-10) < 0);
    assert!(Solution::reverse(0) == 0)
}

#[test]
fn result_checked() {
    assert_eq!(Solution::reverse(0), 0);
    assert_eq!(Solution::reverse(321), 123);
    assert_eq!(Solution::reverse(-123), -321);
    assert_eq!(Solution::reverse(120), 21);
    assert_eq!(Solution::reverse(i32::MAX), 0);
    assert_eq!(Solution::reverse(i32::MIN), 0);
    assert_eq!(Solution::reverse(2147483641), 1463847412);
    assert_eq!(Solution::reverse(-2147483641), -1463847412);
    assert_eq!(Solution::reverse(00000000001), 1);
}

#[test]
fn running_sum_test() {
    println!("{:?}", Solution::running_sum(vec![3, 2, 4, 6666]));
}

#[test]
fn running_sum_values() {
    assert_eq!(vec![3, 5, 9, 6675], Solution::running_sum(vec![3, 2, 4, 6666]));
    assert_eq!(Vec::<i32>::new(), Solution::running_sum(vec![]));
}

#[test]
fn frequency_sort_test() {
    println!("{}", Solution::frequency_sort(String::from("abbaca")));
}

#[test]
fn frequency_sort_values() {
    assert_eq!("aaabbc", Solution::frequency_sort(String::from("abbaca")));
    assert_eq!("eetr", Solution::frequency_sort(String::from("tree")));
    assert_eq!("", Solution::frequency_sort(String::new()));
}

#[test]
fn sum_subarray_minimums_test() {
    assert_eq!(
        brute_force(vec![1, 2, 3, 4]),
        Solution::sum_subarray_mins(vec![1, 2, 3, 4]),
        "1, 2, 3, 4"
    );
    assert_eq!(
        brute_force(vec![3, 1, 2, 4]),
        Solution::sum_subarray_mins(vec![3, 1, 2, 4]),
        "3, 1, 2, 4"
    );
    assert_eq!(
        brute_force(vec![2, 3, 1, 2, 4]),
        Solution::sum_subarray_mins(vec![2, 3, 1, 2, 4]),
        "2, 3, 1, 2, 4"
    );
    assert_eq!(
        brute_force(vec![3, 1, 2, 4, 7, 5]),
        Solution::sum_subarray_mins(vec![3, 1, 2, 4, 7, 5]),
        "3, 1, 2, 4, 7,5"
    );
    assert_eq!(
        brute_force(vec![1, 1, 3, 4]),
        Solution::sum_subarray_mins(vec![1, 1, 3, 4]),
        "three"
    );
    assert_eq!(
        brute_force(vec![11, 81, 94, 43, 3]),
        Solution::sum_subarray_mins(vec![11, 81, 94, 43, 3]),
        "four"
    );
    assert_eq!(
        brute_force(vec![81, 94, 43, 45, 46]),
        Solution::sum_subarray_mins(vec![81, 94, 43, 45, 46]),
        "81, 94, 43, 45, 46"
    );
    assert_eq!(
        brute_force(vec![11, 81, 94, 43, 45, 46, 3]),
        Solution::sum_subarray_mins(vec![11, 81, 94, 43, 45, 46, 3]),
        "11, 81, 94, 43, 45, 46, 3"
    );

    let vec: Vec<i32> = (1000..2000).collect();
    assert_eq!(
        brute_force(vec.clone()),
        Solution::sum_subarray_mins(vec.clone()),
        "{:?}",
        vec
    );
}

#[test]
fn sum_subarray_mins_value() {
    assert_eq!(17, Solution::sum_subarray_mins(vec![3, 1, 2, 4]));
    assert_eq!(444, Solution::sum_subarray_mins(vec![11, 81, 94, 43, 3]));
}

#[test]
fn test1() {
    let w = vec![
        vec!['o', 'a', 'a', 'n'],
        vec!['e', 't', 'a', 'e'],
        vec!['i', 'h', 'k', 'r'],
        vec!['i', 'f', 'l', 'v'],
    ];
    assert_eq!(
        vec!["eat", "oath"],
        Solution::find_words(
            w,
            vec![
                "oath".to_string(),
                "pea".to_string(),
                "eat".to_string(),
                "rain".to_string(),
            ],
        )
    );
}

#[test]
fn test2() {
    let w = vec![vec!['a', 'b'], vec!['c', 'd']];
    assert_eq!(
        Vec::<String>::new(),
        Solution::find_words(w, vec!["abcd".to_string()])
    );
}

#[test]
fn test3() {
    let w = vec![
        vec!['a', 'c', 'e', 'f'],
        vec!['p', 'm', 'x', 'f'],
        vec!['p', 'b', 'e', 'f'],
        vec!['x', 'w', 'k', 'f'],
        vec!['e', 's', 'e', 'f'],
    ];
    assert_eq!(
        Vec::<String>::new(),
        Solution::find_words(w, vec!["apple".to_string(), "agency".to_string(),],)
    );
}

#[test]
fn test4() {
    let w = vec![
        vec!['a', 'b', 'c'],
        vec!['a', 'e', 'd'],
        vec!['a', 'f', 'g'],
    ];
    assert_eq!(
        vec!["abcdefg", "befa", "eaabcdgfa", "gfedcbaaa",],
        Solution::find_words(
            w,
            vec![
                "abcdefg".to_string(),
                "gfedcbaaa".to_string(),
                "eaabcdgfa".to_string(),
                "befa".to_string(),
                "dgc".to_string(),
                "ade".to_string()
            ],
        )
    );
}

#[test]
fn test5() {
    let w = vec![vec!['a', 'b', 'e'], vec!['b', 'c', 'd']];
    assert_eq!(
        vec!["abcdeb"],
        Solution::find_words(w, vec!["abcdeb".to_string()],)
    );
}

#[test]
fn sorted_input_keeps_each_value_once_or_twice() {
    let mut twice = vec![0, 0, 0, 1, 2, 2, 2, 2, 3];
    assert_eq!(6, Solution::remove_duplicates_remove_duplicates_from_sorted(&mut twice));
    assert_eq!(vec![0, 0, 1, 2, 2, 3], twice[..6].to_vec());

    let mut once = vec![0, 0, 1, 1, 1, 2, 2, 3, 3, 4];
    assert_eq!(5, Solution::remove_duplicates_remove_duplicates_i_from_sorted(&mut once));
    assert_eq!(vec![0, 1, 2, 3, 4], once[..5].to_vec());
}
