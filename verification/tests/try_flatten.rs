use fnmatch_regex::try_flatten::TryFlatten;

#[test]
fn test_ok_option() {
    let opt_ok: Vec<Result<Option<&str>, &str>> =
        vec![Ok(Some("hello")), Ok(None), Ok(Some("goodbye"))];
    let mut it = opt_ok.try_flatten();
    assert_eq!(it.next(), Some(Ok("hello")));
    assert_eq!(it.next(), Some(Ok("goodbye")));
    assert_eq!(it.next(), None)
}

#[test]
fn test_err_option() {
    let opt_err: Vec<Result<Option<&str>, &str>> = vec![
        Ok(Some("hello")),
        Ok(None),
        Ok(Some("goodbye")),
        Ok(None),
        Err("oof"),
        Ok(Some("never")),
    ];
    let mut it = opt_err.try_flatten();
    assert_eq!(it.next(), Some(Ok("hello")));
    assert_eq!(it.next(), Some(Ok("goodbye")));
    assert_eq!(it.next(), Some(Err("oof")));
    assert_eq!(it.next(), Some(Ok("never")));
    assert_eq!(it.next(), None)
}

#[test]
fn test_ok_option_collect() {
    let opt_ok: Vec<Result<Option<&str>, &str>> =
        vec![Ok(Some("hello")), Ok(None), Ok(Some("goodbye"))];
    let res: Result<Vec<_>, _> = opt_ok.try_flatten().collect_all();
    assert_eq!(res, Ok(vec!["hello", "goodbye"]));
}

#[test]
fn test_err_option_collect() {
    let opt_err: Vec<Result<Option<&str>, &str>> = vec![
        Ok(Some("hello")),
        Ok(None),
        Ok(Some("goodbye")),
        Ok(None),
        Err("oof"),
        Ok(Some("never")),
    ];
    let res: Result<Vec<_>, _> = opt_err.try_flatten().collect_all();
    assert_eq!(res, Err("oof"));
}

#[derive(Debug, Default)]
struct LazyTest {
    count: usize,
}

impl Iterator for LazyTest {
    type Item = Result<Vec<u32>, String>;

    fn next(&mut self) -> Option<Self::Item> {
        self.count += 1;
        match self.count {
            1 => Some(Ok(vec![1, 2])),
            2 => Some(Ok(vec![])),
            3 => Some(Ok(vec![3])),
            4 => Some(Err("oof".to_owned())),
            _ => panic!("how did we get here?"),
        }
    }
}

#[test]
fn test_lazy() {
    let gathered: Vec<Result<Vec<u32>, String>> = LazyTest::default().take(4).collect();
    let mut it_values = gathered.try_flatten();
    assert_eq!(it_values.next(), Some(Ok(1)));
    assert_eq!(it_values.next(), Some(Ok(2)));
    assert_eq!(it_values.next(), Some(Ok(3)));
    assert_eq!(it_values.next(), Some(Err("oof".to_owned())));

    let gathered_again: Vec<Result<Vec<u32>, String>> = LazyTest::default().take(4).collect();
    let res = gathered_again.try_flatten().collect_all();
    assert_eq!(res, Err("oof".to_owned()));
}
