use gamebot::color::{ColorPoint, ColorPointGroup, ColorPointGroupIn};
use gamebot::find::{
    all_selectors_exist, any_selector_exists, poll_after, Detector, Find, GroupFindOnce, Poll,
};
use gamebot::geometry::{Point, Region};
use gamebot::node::{Id, Node, NodeSelector, Nodeshot};
use gamebot::screenshot::Screenshot;
use gamebot::status::{
    futex_timeout, running_check, secs_to_millis, status_code, status_from_code, status_of_code,
    AlreadyRunning, Cancelled, Status, StatusToken, MAX_WAIT_MILLIS,
};

#[test]
fn token_lifecycle() {
    let token = StatusToken::new();
    assert_eq!(token.get_status(), Status::Stopped);
    assert!(token.is_stopped_status());
    assert_eq!(token.start_script(), Ok(()));
    assert!(token.is_running_status());
    assert_eq!(token.start_script(), Err(AlreadyRunning));
    assert_eq!(token.check_running_status(), Ok(()));
    token.set_stopped_status();
    assert_eq!(token.check_running_status(), Err(Cancelled));
    token.set_running_status();
    assert_eq!(token.get_status(), Status::Running);
    token.set_status(Status::Stopped);
    assert_eq!(token.get_status(), Status::Stopped);
}

#[test]
fn wait_on_stopped_token_returns_at_once() {
    let token = StatusToken::new();
    let start = std::time::Instant::now();
    assert_eq!(token.wait_millis(5_000), Err(Cancelled));
    assert_eq!(token.wait_secs(5), Err(Cancelled));
    assert!(start.elapsed() < std::time::Duration::from_millis(1_000));
}

#[test]
fn wait_while_running_sleeps_its_time() {
    let token = StatusToken::new();
    token.set_running_status();
    let start = std::time::Instant::now();
    assert_eq!(token.wait_millis(30), Ok(()));
    assert!(start.elapsed() >= std::time::Duration::from_millis(25));
}

#[test]
fn status_codes() {
    assert_eq!(status_code(Status::Stopped), 0);
    assert_eq!(status_code(Status::Running), 1);
    assert_eq!(status_from_code(1), Some(Status::Running));
    assert_eq!(status_from_code(0), Some(Status::Stopped));
    assert_eq!(status_from_code(2), None);
    assert_eq!(status_of_code(1), Status::Running);
    assert_eq!(status_of_code(0), Status::Stopped);
    assert_eq!(status_of_code(7), Status::Stopped);
    assert_eq!(futex_timeout(250), 250);
    assert_eq!(futex_timeout(u64::MAX), MAX_WAIT_MILLIS);
    assert_eq!(running_check(Status::Running), Ok(()));
    assert_eq!(running_check(Status::Stopped), Err(Cancelled));
    assert_eq!(secs_to_millis(3), 3_000);
    assert_eq!(secs_to_millis(u64::MAX), u64::MAX);
}

#[test]
fn polling_decisions() {
    assert_eq!(poll_after(true, 500, 100), Poll::Found);
    assert_eq!(poll_after(false, 0, 0), Poll::GiveUp);
    assert_eq!(poll_after(false, 30, 100), Poll::WaitFor(70));
}

fn shot() -> Screenshot {
    let mut data = vec![0u8; 5 * 5 * 4];
    data[(2 * 5 + 3) * 4] = 255;
    Screenshot::new(5, 5, data, 1).unwrap()
}

#[test]
fn detectors_share_one_frame() {
    let s = shot();
    let red = Detector::ColorPoint(ColorPoint::new(3, 2, 255, 0, 0));
    let black = Detector::ColorPointGroup(ColorPointGroup {
        group: vec![ColorPoint::new(0, 0, 0, 0, 0)],
        tolerance: 0,
    });
    let blue = Detector::ColorPointGroupIn(ColorPointGroupIn {
        group: vec![ColorPoint::new(0, 0, 0, 0, 255)],
        tolerance: 0,
        region: Region::new(0, 0, 5, 5),
    });
    assert_eq!(red.find(&s), Some(Point::new(3, 2)));
    assert!(black.exist(&s));
    assert!(!blue.exist(&s));
    assert_eq!(blue.find(&s), None);
    assert!(vec![red.clone(), black.clone()].all_exist(&s));
    assert!(!vec![red.clone(), blue.clone()].all_exist(&s));
    assert!(vec![blue.clone(), red.clone()].any_exist(&s));
    assert!(!vec![blue].any_exist(&s));
    let none: Vec<Detector> = vec![];
    assert!(none.all_exist(&s));
    assert!(!none.any_exist(&s));
    let points = vec![ColorPoint::new(3, 2, 255, 0, 0), ColorPoint::new(0, 0, 0, 0, 0)];
    assert!(points.all_exist(&s));
    assert!(points.all_are_ready());
    assert!(red.is_ready());
    let broken = gamebot::color::ImageIn {
        img: gamebot::color::Image { width: 2, height: 2, data: vec![0; 3] },
        region: Region::new(0, 0, 5, 5),
        tolerance: gamebot::color::Tolerance::MAE(0),
    };
    assert!(!broken.is_ready());
    assert!(!vec![Detector::ImageIn(broken)].all_are_ready());
}

#[test]
fn selector_groups() {
    let nodes = vec![Node { id: "a".to_string(), ..Default::default() }];
    let shot = Nodeshot::new(nodes, 3).unwrap();
    let a = NodeSelector::Id(Id("a".to_string()));
    let b = NodeSelector::Id(Id("b".to_string()));
    assert!(any_selector_exists(&vec![NodeSelector::Id(Id("b".to_string())), a], &shot));
    assert!(!all_selectors_exist(&vec![NodeSelector::Any, b], &shot));
    assert!(all_selectors_exist(&vec![NodeSelector::Any], &shot));
}

#[test]
fn activity_manager_arguments() {
    use_activity();
}

fn use_activity() {
    let a = gamebot::activity::ActivityInfo {
        package: "com.example.game".to_string(),
        class: ".Main".to_string(),
    };
    assert_eq!(a.start(), vec!["start".to_string(), "com.example.game/.Main".to_string()]);
    assert_eq!(
        gamebot::activity::stop_package("com.example.game"),
        vec!["force-stop".to_string(), "com.example.game".to_string()]
    );
}
