use scene_transform::entities::observable::Observable;

#[test]
fn should_create_empty_observable() {
    let sut = Observable::<Box<dyn Fn()>>::new();
    assert_eq!(sut.len(), 0);
}

#[test]
fn should_subscribe_an_observer() {
    let mut sut = Observable::<Box<dyn Fn()>>::new();
    sut.subscribe(Box::new(|| {}));
    assert_eq!(sut.len(), 1)
}

#[test]
#[should_panic]
fn should_notify_an_observer() {
    let mut sut = Observable::<Box<dyn Fn()>>::new();
    sut.subscribe(Box::new(|| panic!()));
    sut.notify();
}

#[test]
fn notify_calls_every_observer_in_order() {
    let log = std::rc::Rc::new(std::cell::RefCell::new(Vec::new()));
    let mut sut = Observable::<Box<dyn Fn()>>::new();
    let first = log.clone();
    sut.subscribe(Box::new(move || first.borrow_mut().push(1)));
    let second = log.clone();
    sut.subscribe(Box::new(move || second.borrow_mut().push(2)));
    sut.notify();
    assert_eq!(*log.borrow(), vec![1, 2]);
}
