use nimble::secure_random::{GetRandom, SecureRandom};

#[test]
fn lib_check_random() {
    let mut random = GetRandom;
    let result = random.random_u64();
    println!("result: {:?}", result)
}
