//! A study collection of verified algorithm exercises: a singly linked list
//! with shared-arena storage, an ordered binary tree with a lazy in-order
//! iterator, and a set of small numeric and dynamic-programming puzzles,
//! each with a contract stating what it computes.

pub mod big_number;
pub mod binary_tree;
pub mod coin_change_making;
pub mod coin_collecting;
pub mod coin_row;
pub mod computing_nth_fibonacci_number;
pub mod digits;
pub mod double_based_palindrome;
pub mod factorial_digit_sum;
pub mod fibonacci_number_with_digits;
pub mod get_nth_prime;
pub mod knapsack;
pub mod largest_palindrome_product;
pub mod largest_prime_factor;
pub mod linked_list;
pub mod linked_list_node;
pub mod minimum_sum_descent;
pub mod minimum_sum_descent2;
pub mod multiples_3_5;
pub mod names_scores;
pub mod num_of_islands;
pub mod server_cluster;
pub mod single_number_iii;
pub mod smallest_evenly_divisible;
pub mod sum_square_difference;
pub mod total_order;
pub mod two_number_sum;
