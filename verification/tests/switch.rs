use wb_switch_core::json::Json;
use wb_switch_core::session_link::{
    RecoveryIssue, RecoveryReport, LOCK_BUSY_MESSAGE_PREFIX, LOCK_UNAVAILABLE_MESSAGE_PREFIX,
};
use wb_switch_core::switch::{
    is_lock_failure, recovery_blocks, Switch, SwitchAccount, SwitchEvent, SwitchStage,
    COPY_NEEDS_RESTART,
};
use wb_switch_core::variant::WbVariant;

fn account() -> SwitchEvent {
    SwitchEvent::Account(Some(SwitchAccount {
        display_name: "Ada".to_string(),
        variant: WbVariant::Ai,
    }))
}

fn report(retryable: Option<bool>) -> RecoveryReport {
    RecoveryReport {
        recovered: vec!["op-1".to_string()],
        abandoned: Vec::new(),
        needs_recovery: retryable
            .map(|retryable| RecoveryIssue {
                operation_id: "op-2".to_string(),
                reason: "云端映射丢失或被改动，已停止恢复".to_string(),
                retryable,
            })
            .into_iter()
            .collect(),
    }
}

fn clean() -> RecoveryReport {
    RecoveryReport {
        recovered: Vec::new(),
        abandoned: Vec::new(),
        needs_recovery: Vec::new(),
    }
}

/// Takes the steps, and notes each stage that is reached and what the user is told there.
fn run(switch: &mut Switch, events: Vec<SwitchEvent>) -> Vec<(SwitchStage, Option<&'static str>)> {
    let mut seen = vec![(switch.stage, switch.progress())];
    for event in events {
        switch.step(event);
        seen.push((switch.stage, switch.progress()));
    }
    seen
}

fn complaint(json: &Json, key: &str) -> Option<String> {
    json.get(key)?.get_text("error")
}

#[test]
fn a_switch_with_restart_goes_through_every_stage() {
    let mut switch = Switch::new("acc-1", true, true, true);
    let seen = run(
        &mut switch,
        vec![
            account(),
            SwitchEvent::Backup(Some("/backups/auth".to_string())),
            SwitchEvent::Done(Ok(())),
            SwitchEvent::Recovered(Ok(report(Some(true)))),
            SwitchEvent::Copied(Err("当前账号与目标账号相同，无需复制会话".to_string())),
            SwitchEvent::Done(Ok(())),
            SwitchEvent::Done(Ok(())),
        ],
    );
    assert_eq!(
        seen,
        vec![
            (SwitchStage::FindAccount, Some("开始切换账号…")),
            (SwitchStage::BackupLogin, None),
            (SwitchStage::Close, Some("正在关闭 WorkBuddy…")),
            (SwitchStage::Recover, None),
            (SwitchStage::CopySessions, Some("正在复制会话到目标账号…")),
            (SwitchStage::WriteLogin, Some("正在写入认证文件…")),
            (SwitchStage::Launch, Some("正在启动 WorkBuddy…")),
            (SwitchStage::Finished, Some("切换完成")),
        ]
    );
    let result = switch.result.expect("a result").expect("a success");
    assert_eq!(result.get("ok"), Some(&Json::Bool(true)));
    assert_eq!(result.get_text("account").as_deref(), Some("Ada"));
    assert_eq!(result.get_text("variant").as_deref(), Some("ai"));
    assert_eq!(result.get_text("backup").as_deref(), Some("/backups/auth"));
    assert_eq!(
        complaint(&result, "sessionCopy").as_deref(),
        Some("当前账号与目标账号相同，无需复制会话")
    );
    assert!(complaint(&result, "sessionShare").is_some());
    let recovery = result.get("sessionRecovery").expect("the recovery");
    assert_eq!(recovery.get_i64("recovered"), Some(1));
    assert_eq!(recovery.get_i64("abandoned"), Some(0));
    let issue = match recovery.get("needsRecovery") {
        Some(Json::Array(issues)) => &issues[0],
        _ => panic!("a list"),
    };
    assert_eq!(issue.get_text("operationId").as_deref(), Some("op-2"));
    assert_eq!(issue.get("retryable"), Some(&Json::Bool(true)));
}

#[test]
fn without_restart_a_wish_to_copy_is_refused_and_the_login_is_written() {
    let mut switch = Switch::new("acc-1", false, true, true);
    let seen = run(
        &mut switch,
        vec![account(), SwitchEvent::Backup(None), SwitchEvent::Done(Ok(()))],
    );
    let stages: Vec<SwitchStage> = seen.iter().map(|s| s.0).collect();
    assert_eq!(
        stages,
        vec![
            SwitchStage::FindAccount,
            SwitchStage::BackupLogin,
            SwitchStage::WriteLogin,
            SwitchStage::Finished,
        ]
    );
    let result = switch.result.expect("a result").expect("a success");
    assert_eq!(
        complaint(&result, "sessionCopy").as_deref(),
        Some(COPY_NEEDS_RESTART)
    );
    assert!(result.get("sessionShare").is_none());
    assert_eq!(result.get("backup"), Some(&Json::Null));
}

#[test]
fn an_unknown_account_ends_the_switch() {
    let mut switch = Switch::new("acc-9", true, false, false);
    run(&mut switch, vec![SwitchEvent::Account(None)]);
    assert_eq!(switch.stage, SwitchStage::Finished);
    assert_eq!(switch.result, Some(Err("账号不存在: acc-9".to_string())));
    assert_eq!(switch.progress(), None);
}

#[test]
fn what_cannot_be_recovered_safely_stops_the_switch() {
    let mut switch = Switch::new("acc-1", true, false, false);
    run(
        &mut switch,
        vec![
            account(),
            SwitchEvent::Backup(None),
            SwitchEvent::Done(Ok(())),
            SwitchEvent::Recovered(Ok(report(Some(false)))),
        ],
    );
    assert_eq!(
        switch.result,
        Some(Err(
            "检测到无法安全恢复的会话写入（云端映射丢失或被改动，已停止恢复），已暂停切换与启动 WorkBuddy；请先处理该会话后再试"
                .to_string()
        ))
    );
    assert!(recovery_blocks(&report(Some(false))));
    assert!(!recovery_blocks(&report(Some(true))));
    assert!(!recovery_blocks(&clean()));
}

#[test]
fn a_lock_that_cannot_be_had_stops_the_switch() {
    let mut switch = Switch::new("acc-1", true, false, false);
    run(
        &mut switch,
        vec![
            account(),
            SwitchEvent::Backup(None),
            SwitchEvent::Done(Ok(())),
            SwitchEvent::Recovered(Err("忙".to_string())),
        ],
    );
    assert_eq!(
        switch.result,
        Some(Err(
            "无法恢复未完成的会话写入（忙），已暂停切换与启动 WorkBuddy；请稍后重试".to_string()
        ))
    );

    for prefix in [LOCK_BUSY_MESSAGE_PREFIX, LOCK_UNAVAILABLE_MESSAGE_PREFIX] {
        let error = format!("{prefix}：x");
        assert!(is_lock_failure(&error));
        let mut switch = Switch::new("acc-1", true, false, true);
        run(
            &mut switch,
            vec![
                account(),
                SwitchEvent::Backup(None),
                SwitchEvent::Done(Ok(())),
                SwitchEvent::Recovered(Ok(clean())),
                SwitchEvent::Copied(Err(error.clone())),
            ],
        );
        assert_eq!(
            switch.result,
            Some(Err(format!(
                "无法独占会话操作（{error}），已暂停切换与启动 WorkBuddy；请稍后重试"
            )))
        );
    }
    assert!(!is_lock_failure("x"));
}

#[test]
fn a_client_that_does_not_close_or_start_ends_the_switch() {
    let failure = || SwitchEvent::Done(Err("x".to_string()));
    let before = || vec![account(), SwitchEvent::Backup(None)];
    let mut switch = Switch::new("acc-1", true, false, false);
    run(&mut switch, before());
    switch.step(failure());
    assert_eq!(switch.result, Some(Err("x".to_string())));

    let mut switch = Switch::new("acc-1", false, false, false);
    run(&mut switch, before());
    switch.step(failure());
    assert_eq!(switch.result, Some(Err("x".to_string())));

    let mut switch = Switch::new("acc-1", true, false, false);
    run(&mut switch, before());
    switch.step(SwitchEvent::Done(Ok(())));
    switch.step(SwitchEvent::Recovered(Ok(clean())));
    assert_eq!(switch.stage, SwitchStage::WriteLogin);
    switch.step(SwitchEvent::Done(Ok(())));
    assert_eq!(switch.stage, SwitchStage::Launch);
    switch.step(failure());
    assert_eq!(switch.result, Some(Err("x".to_string())));
}
