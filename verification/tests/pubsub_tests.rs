use mursten::pubsub::{medium, open_medium, PublicationTrait};

#[test]
fn a_subscriber_receives_what_is_published() {
    let (publication, mut publisher) = medium::<u32>();
    let inbox = publication.subscribe();
    publisher.publish(&7);
    publisher.publish(&8);
    assert_eq!(inbox.try_recv(), Ok(7));
    assert_eq!(inbox.try_recv(), Ok(8));
    assert!(inbox.try_recv().is_err());
}

#[test]
fn every_subscriber_receives_a_copy() {
    let (publication, mut publisher) = medium::<String>();
    let first = publication.subscribe();
    let second = publication.subscribe();
    publisher.publish(&"news".to_string());
    assert_eq!(first.try_recv(), Ok("news".to_string()));
    assert_eq!(second.try_recv(), Ok("news".to_string()));
}

#[test]
fn a_gone_subscriber_is_dropped() {
    let (publication, mut publisher) = medium::<u8>();
    let kept = publication.subscribe();
    {
        let _gone = publication.subscribe();
    }
    publisher.publish(&1);
    publisher.publish(&2);
    assert_eq!(kept.try_recv(), Ok(1));
    assert_eq!(kept.try_recv(), Ok(2));
}

#[test]
fn an_open_medium_pumps_nothing_yet() {
    let (publication, address, mut republisher) = open_medium::<u8>();
    let inbox = publication.subscribe();
    address.send(3).unwrap();
    republisher.pump();
    assert!(inbox.try_recv().is_err());
}

#[test]
fn retain_delivered_keeps_flagged_subscribers_in_order() {
    let (s0, r0) = std::sync::mpsc::channel::<u32>();
    let (s1, r1) = std::sync::mpsc::channel::<u32>();
    let (s2, r2) = std::sync::mpsc::channel::<u32>();
    let kept = mursten::pubsub::retain_delivered(vec![s0, s1, s2], vec![true, false, true]);
    assert_eq!(kept.len(), 2);
    kept[0].send(10).unwrap();
    kept[1].send(12).unwrap();
    assert_eq!(r0.try_recv(), Ok(10));
    assert_eq!(r2.try_recv(), Ok(12));
    assert!(r1.try_recv().is_err());
    assert!(mursten::pubsub::retain_delivered::<u32>(vec![], vec![]).is_empty());
}
