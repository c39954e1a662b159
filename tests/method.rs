use yata::{Error, LinReg, Method, Ratio, SMM};

fn run<M: Method>(length: u16, first: i64, inputs: &[i64]) -> Result<Vec<Ratio>, Error> {
    let mut m = M::create(length, first)?;
    Ok(inputs.iter().map(|&x| m.consume(x)).collect())
}

#[test]
fn trackers_share_one_lifecycle() {
    let med = run::<SMM>(3, 1, &[1, 2, 3, 100]).unwrap();
    assert_eq!(med.iter().map(|r| r.num).collect::<Vec<_>>(), vec![2, 2, 4, 6]);
    let fit = run::<LinReg>(3, 1, &[1, 2, 4]).unwrap();
    assert_eq!(fit[2], Ratio { num: 23, den: 6 });
    assert!(matches!(run::<LinReg>(1, 0, &[]), Err(Error::InvalidParameters)));
    assert!(matches!(run::<SMM>(0, 0, &[]), Err(Error::InvalidParameters)));
}
