use tokio::sync::oneshot;
use void_engine::rendezvous::{poll_once, GpuInitError, PollOutcome, RendezvousCell};

#[derive(Debug, PartialEq, Eq, Clone)]
struct Ctx {
    adapter_name: String,
}

#[test]
fn try_take_is_none_before_and_delivers_exactly_once() {
    let (tx, rx) = oneshot::channel::<Result<Ctx, GpuInitError>>();
    let mut cell = RendezvousCell::new(rx);

    // Before completion: None on every call.
    for _ in 0..3 {
        assert!(cell.try_take().is_none());
    }

    tx.send(Ok(Ctx { adapter_name: "stub".to_string() })).unwrap();

    // Exactly one Some at/after completion.
    match cell.try_take() {
        Some(Ok(ctx)) => assert_eq!(ctx.adapter_name, "stub"),
        _ => panic!("expected the delivered context"),
    }

    // Never a second delivery.
    for _ in 0..5 {
        assert!(cell.try_take().is_none());
    }
}

#[test]
fn try_take_reports_a_failed_job() {
    let (tx, rx) = oneshot::channel::<Result<Ctx, GpuInitError>>();
    let mut cell = RendezvousCell::new(rx);
    tx.send(Err(GpuInitError::NoAdapter)).unwrap();
    assert!(matches!(cell.try_take(), Some(Err(GpuInitError::NoAdapter))));
    assert!(cell.try_take().is_none());
}

#[test]
fn broken_delivery_is_a_distinguished_error() {
    let (tx, rx) = oneshot::channel::<Result<Ctx, GpuInitError>>();
    let mut cell = RendezvousCell::new(rx);
    assert!(cell.try_take().is_none());
    drop(tx); // the worker dies without reporting
    assert!(matches!(cell.try_take(), Some(Err(GpuInitError::DeliveryBroken))));
    assert!(cell.try_take().is_none());
}

#[test]
fn discarding_the_cell_makes_late_delivery_a_safe_no_op() {
    let (tx, rx) = oneshot::channel::<Result<Ctx, GpuInitError>>();
    let cell = RendezvousCell::new(rx);
    drop(cell);
    // The background side's attempt to deliver fails cleanly; the value
    // comes back instead of crashing or leaking.
    let returned = tx.send(Ok(Ctx { adapter_name: "late".to_string() }));
    match returned {
        Err(Ok(ctx)) => assert_eq!(ctx.adapter_name, "late"),
        _ => panic!("send into a dropped cell must hand the value back"),
    }
}

#[test]
fn poll_once_walks_the_cell_to_a_terminal_no_op() {
    let (tx, rx) = oneshot::channel::<Result<Ctx, GpuInitError>>();
    let mut slot: Option<RendezvousCell<Ctx>> = Some(RendezvousCell::new(rx));

    assert!(matches!(poll_once(&mut slot), PollOutcome::Pending));
    assert!(matches!(poll_once(&mut slot), PollOutcome::Pending));
    assert!(slot.is_some());

    tx.send(Ok(Ctx { adapter_name: "gpu0".to_string() })).unwrap();

    match poll_once(&mut slot) {
        PollOutcome::Ready(ctx) => assert_eq!(ctx.adapter_name, "gpu0"),
        _ => panic!("expected the context"),
    }
    assert!(slot.is_none());

    // After the first resolution the poller is a permanent no-op.
    for _ in 0..3 {
        assert!(matches!(poll_once(&mut slot), PollOutcome::Idle));
        assert!(slot.is_none());
    }
}

#[test]
fn poll_once_reports_a_failure_and_clears_the_slot() {
    let (tx, rx) = oneshot::channel::<Result<Ctx, GpuInitError>>();
    let mut slot: Option<RendezvousCell<Ctx>> = Some(RendezvousCell::new(rx));
    tx.send(Err(GpuInitError::RequestDevice("out of memory".to_string()))).unwrap();
    match poll_once(&mut slot) {
        PollOutcome::Failed(GpuInitError::RequestDevice(reason)) => {
            assert_eq!(reason, "out of memory");
        }
        _ => panic!("expected the failure"),
    }
    assert!(slot.is_none());
    assert!(matches!(poll_once(&mut slot), PollOutcome::Idle));
}

#[test]
fn poll_once_turns_a_broken_channel_into_delivery_broken() {
    let (tx, rx) = oneshot::channel::<Result<Ctx, GpuInitError>>();
    let mut slot: Option<RendezvousCell<Ctx>> = Some(RendezvousCell::new(rx));
    drop(tx);
    assert!(matches!(
        poll_once(&mut slot),
        PollOutcome::Failed(GpuInitError::DeliveryBroken)
    ));
    assert!(slot.is_none());
}

#[test]
fn error_descriptions_name_each_failure() {
    assert_eq!(
        GpuInitError::NoAdapter.describe(),
        "no compatible GPU adapter available"
    );
    assert_eq!(
        GpuInitError::RequestDevice("denied".to_string()).describe(),
        "failed to request device: denied"
    );
    assert_eq!(
        GpuInitError::DeliveryBroken.describe(),
        "initialization channel closed unexpectedly"
    );
}
