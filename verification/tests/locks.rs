use lib::locks::condvar::Condvar;
use lib::locks::mutex::Mutex;
use lib::locks::oneshot;
use lib::locks::rwlock::RwLock;
use lib::locks::semaphore::Semaphore;
use lib::locks::spsc;
use lib::locks::spsc::{TryReceiveError, TrySendError};
use lib::locks::watch;

#[test]
fn semaphore_try_acquire_and_release() {
    let mut s = Semaphore::new(3);
    let g = s.try_acquire(2).expect("two of three permits");
    assert_eq!(g.permits(), 2);
    assert!(s.try_acquire(2).is_none());
    let woken = g.release(&mut s);
    assert!(woken.is_empty());
    assert!(s.try_acquire(3).is_some());
}

#[test]
fn semaphore_serves_waiters_in_order() {
    let mut s = Semaphore::new(0);
    let mut a = s.acquire(1);
    let mut b = s.acquire(1);
    let (ga, _) = a.poll(&mut s, 10);
    let (gb, _) = b.poll(&mut s, 20);
    assert!(ga.is_none() && gb.is_none());
    // one permit: only the first waiter is served
    let woken = s.release(1);
    assert_eq!(woken, vec![10]);
    let (gb, _) = b.poll(&mut s, 20);
    assert!(gb.is_none());
    let (ga, _) = a.poll(&mut s, 10);
    assert_eq!(ga.expect("served").permits(), 1);
    let woken = s.release(1);
    assert_eq!(woken, vec![20]);
    assert!(b.poll(&mut s, 20).0.is_some());
}

#[test]
fn semaphore_fair_while_waiting() {
    let mut s = Semaphore::new(1);
    let mut big = s.acquire(2);
    assert!(big.poll(&mut s, 1).0.is_none());
    // a waiter is queued: the free permit went to the queue
    assert!(s.try_acquire(1).is_none());
    let woken = big.cancel(&mut s);
    assert!(woken.is_empty());
    assert!(s.try_acquire(1).is_some());
}

#[test]
fn mutex_lock_unlock_and_wait() {
    let mut m = Mutex::new(5u32);
    let g = m.try_lock().expect("free");
    assert_eq!(*m.get(&g), 5);
    assert_eq!(m.replace(&g, 7), 5);
    let mut f = m.lock();
    let (none, _) = f.poll(&mut m, 42);
    assert!(none.is_none());
    assert!(m.try_lock().is_none());
    let woken = m.unlock(g);
    assert_eq!(woken, vec![42]);
    let (g2, _) = f.poll(&mut m, 42);
    let g2 = g2.expect("handed over");
    assert_eq!(*m.get(&g2), 7);
    m.unlock(g2);
}

#[test]
fn rwlock_readers_share_writer_excludes() {
    let mut l = RwLock::new(1u64);
    let r1 = l.try_read().expect("free");
    let r2 = l.try_read().expect("readers share");
    assert!(l.try_write().is_none());
    assert_eq!(*l.get(&r1), 1);
    l.unlock_read(r1);
    l.unlock_read(r2);
    let w = l.try_write().expect("free again");
    assert!(l.try_read().is_none());
    assert_eq!(l.replace(&w, 9), 1);
    let (r, _) = w.downgrade(&mut l);
    assert_eq!(*l.get(&r), 9);
    l.unlock_read(r);
}

#[test]
fn condvar_wakes_in_arrival_order() {
    let mut m = Mutex::new(0u8);
    let mut cv = Condvar::new();
    assert!(cv.wake().is_none());
    let g = m.try_lock().unwrap();
    let mut w = cv.wait(g);
    let (g, _) = w.poll(&mut cv, &mut m, 3);
    assert!(g.is_none());
    // the wait released the lock
    let g2 = m.try_lock().expect("released by the wait");
    assert_eq!(cv.wake(), Some(3));
    assert!(cv.wake().is_none());
    let woken = m.unlock(g2);
    assert!(woken.is_empty());
    let (g, _) = w.poll(&mut cv, &mut m, 3);
    let g = g.expect("signalled and relocked");
    m.unlock(g);
}

#[test]
fn oneshot_send_then_receive() {
    let (tx, rx, mut ch) = oneshot::channel::<u32>();
    let mut f = rx.recv();
    assert!(f.poll(&mut ch, 8).is_none());
    assert_eq!(tx.send(&mut ch, 17), Some(8));
    match f.poll(&mut ch, 8) {
        Some(Ok(v)) => assert_eq!(v, 17),
        _ => panic!("value expected"),
    }
}

#[test]
fn oneshot_sender_lost() {
    let (tx, rx, mut ch) = oneshot::channel::<u32>();
    let mut f = rx.recv();
    assert!(tx.close(&mut ch).is_none());
    assert!(matches!(f.poll(&mut ch, 1), Some(Err(_))));
}

#[test]
fn watch_latest_value() {
    let (mut p, mut s, mut w) = watch::pair(1u32);
    assert_eq!(*s.borrow(&w), 1);
    p.send(&mut w, 2);
    p.send(&mut w, 3);
    assert!(s.sync(&w));
    assert_eq!(*s.borrow(&w), 3);
    assert!(!s.sync(&w));
    let mut c = s.wait();
    assert!(c.poll(&mut s, &mut w, 5).is_none());
    p.send(&mut w, 4);
    assert!(matches!(c.poll(&mut s, &mut w, 5), Some(Ok(4))));
    let mut c = s.wait();
    p.close(&mut w);
    assert!(matches!(c.poll(&mut s, &mut w, 5), Some(Err(_))));
}

#[test]
fn spsc_fifo_and_capacity() {
    let (mut tx, mut rx, mut ch) = spsc::channel::<u32>(2);
    assert!(tx.try_send(&mut ch, 1).is_ok());
    assert!(tx.try_send(&mut ch, 2).is_ok());
    assert!(matches!(tx.try_send(&mut ch, 3), Err(TrySendError::BufferFull(3))));
    assert_eq!(rx.try_recv(&mut ch).ok().map(|r| r.0), Some(1));
    assert!(tx.try_send(&mut ch, 3).is_ok());
    assert_eq!(rx.try_recv(&mut ch).ok().map(|r| r.0), Some(2));
    assert_eq!(rx.try_recv(&mut ch).ok().map(|r| r.0), Some(3));
    assert!(matches!(rx.try_recv(&mut ch), Err(TryReceiveError::BufferEmpty)));
}

#[test]
fn spsc_ring_wraps_around() {
    let (mut tx, mut rx, mut ch) = spsc::channel::<u32>(3);
    for round in 0..5u32 {
        for k in 0..3u32 {
            assert!(tx.try_send(&mut ch, round * 10 + k).is_ok());
        }
        for k in 0..3u32 {
            assert_eq!(rx.try_recv(&mut ch).ok().map(|r| r.0), Some(round * 10 + k));
        }
    }
}

#[test]
fn spsc_send_waits_for_room() {
    let (mut tx, mut rx, mut ch) = spsc::channel::<u32>(1);
    assert!(tx.try_send(&mut ch, 1).is_ok());
    let mut f = tx.send(2);
    let (r, _) = f.poll(&mut tx, &mut ch, 77);
    assert!(r.is_none());
    let (v, woken) = rx.try_recv(&mut ch).ok().expect("a value");
    assert_eq!(v, 1);
    assert_eq!(woken, vec![77]);
    let (r, _) = f.poll(&mut tx, &mut ch, 77);
    assert!(matches!(r, Some(Ok(()))));
    assert_eq!(rx.try_recv(&mut ch).ok().map(|r| r.0), Some(2));
}

#[test]
fn spsc_receive_waits_for_data() {
    let (mut tx, mut rx, mut ch) = spsc::channel::<u32>(4);
    let mut f = rx.recv();
    let (r, _) = f.poll(&mut rx, &mut ch, 5);
    assert!(r.is_none());
    let woken = tx.try_send(&mut ch, 9).ok().expect("room");
    assert_eq!(woken, vec![5]);
    let (r, _) = f.poll(&mut rx, &mut ch, 5);
    assert!(matches!(r, Some(Ok(9))));
}

#[test]
fn spsc_sender_lost_after_data_drained() {
    let (mut tx, mut rx, mut ch) = spsc::channel::<u32>(2);
    assert!(tx.try_send(&mut ch, 4).is_ok());
    assert!(tx.close(&mut ch).is_none());
    assert_eq!(rx.try_recv(&mut ch).ok().map(|r| r.0), Some(4));
    assert!(matches!(rx.try_recv(&mut ch), Err(TryReceiveError::SenderLost)));
    assert!(rx.lost_sender());
}

#[test]
fn spsc_receiver_lost() {
    let (mut tx, rx, mut ch) = spsc::channel::<u32>(2);
    assert!(rx.close(&mut ch).is_none());
    assert!(matches!(tx.try_send(&mut ch, 1), Err(TrySendError::ReceiverLost(1))));
    let mut f = tx.send(2);
    let (r, _) = f.poll(&mut tx, &mut ch, 1);
    assert!(matches!(r, Some(Err(lib::locks::spsc::ReceiverLost(2)))));
}

#[test]
fn spsc_waiting_receiver_woken_by_close() {
    let (tx, mut rx, mut ch) = spsc::channel::<u32>(2);
    let mut f = rx.recv();
    assert!(f.poll(&mut rx, &mut ch, 6).0.is_none());
    assert_eq!(tx.close(&mut ch), Some(6));
    let (r, _) = f.poll(&mut rx, &mut ch, 6);
    assert!(matches!(r, Some(Err(_))));
}
