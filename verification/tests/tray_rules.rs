use localzip::tray::{
    decide_close, effective_intent, os_state_from, reconcile_decision, reconcile_settings, start_hidden,
    CloseAction, Fix,
    OsAutostart, Settings,
};

const NOVO: &str = r"C:\Program Files\LocalZip\LocalZip.exe --hidden";
const VELHO: &str = r"C:\Users\joao\AppData\Local\LocalZip\LocalZip.exe --hidden";

#[test]
fn caminho_atual_esta_ok() {
    assert_eq!(os_state_from(Some(NOVO), None, NOVO), OsAutostart::Current);
}

#[test]
fn caminho_de_exe_antigo_e_quebrado_nao_ligado() {
    // The entry EXISTS but points at an old executable: it does not start.
    assert_eq!(os_state_from(Some(VELHO), None, NOVO), OsAutostart::Broken);
}

#[test]
fn entrada_ausente_e_quebrada() {
    assert_eq!(os_state_from(None, None, NOVO), OsAutostart::Broken);
}

#[test]
fn espaco_e_caixa_nao_contam() {
    let outro = r"c:\program files\localzip\localzip.exe --hidden  ";
    assert_eq!(os_state_from(Some(outro), None, NOVO), OsAutostart::Current);
}

#[test]
fn gerenciador_de_tarefas_desligado_por_flag() {
    // Flag with bit 0 set and a zero time.
    let bytes = [3u8, 0, 0, 0, 0, 0, 0, 0, 0, 0, 0, 0];
    assert_eq!(os_state_from(Some(NOVO), Some(&bytes), NOVO), OsAutostart::UserDisabled);
}

#[test]
fn gerenciador_de_tarefas_desligado_por_timestamp() {
    let bytes = [2u8, 0, 0, 0, 0xAB, 0, 0, 0, 0, 0, 0, 0];
    assert_eq!(os_state_from(Some(NOVO), Some(&bytes), NOVO), OsAutostart::UserDisabled);
}

#[test]
fn gerenciador_de_tarefas_habilitado_nao_atrapalha() {
    let bytes = [2u8, 0, 0, 0, 0, 0, 0, 0, 0, 0, 0, 0];
    assert_eq!(os_state_from(Some(NOVO), Some(&bytes), NOVO), OsAutostart::Current);
}

#[test]
fn intencao_sobrevive_a_exe_movido() {
    let estado = os_state_from(Some(VELHO), None, NOVO);
    let (want, fix) = reconcile_decision(true, estado);
    assert!(want, "the user's intent is not dropped by a stale entry");
    assert_eq!(fix, Fix::Enable, "the stale entry is rewritten");
}

#[test]
fn gerenciador_de_tarefas_vence_a_checkbox() {
    let (want, fix) = reconcile_decision(true, OsAutostart::UserDisabled);
    assert!(!want);
    assert_eq!(fix, Fix::Nothing, "the system's own startup manager is not fought at every start");
}

#[test]
fn desligado_limpa_entrada_existente() {
    assert_eq!(reconcile_decision(false, OsAutostart::Current), (false, Fix::Disable));
    assert_eq!(reconcile_decision(false, OsAutostart::Broken), (false, Fix::Nothing));
}

#[test]
fn ligado_e_ok_nao_mexe_no_registro() {
    assert_eq!(reconcile_decision(true, OsAutostart::Current), (true, Fix::Nothing));
}

#[test]
fn fechar_com_extracao_rodando_vai_pra_bandeja() {
    assert_eq!(decide_close(false, true), CloseAction::ToTray);
    assert_eq!(decide_close(true, true), CloseAction::ToTray);
    assert_eq!(decide_close(true, false), CloseAction::ToTray);
    assert_eq!(decide_close(false, false), CloseAction::Exit);
}

#[test]
fn short_approval_data_is_only_read_by_its_flag() {
    // Fewer than 12 bytes: the time is not looked at.
    let bytes = [2u8, 0, 0, 0, 0xFF];
    assert_eq!(os_state_from(Some(NOVO), Some(&bytes), NOVO), OsAutostart::Current);
    let bytes = [1u8];
    assert_eq!(os_state_from(None, Some(&bytes), NOVO), OsAutostart::UserDisabled);
    let empty: [u8; 0] = [];
    assert_eq!(os_state_from(None, Some(&empty), NOVO), OsAutostart::Broken);
}

#[test]
fn reconcile_follows_intent_on_every_state() {
    for state in [OsAutostart::Current, OsAutostart::Broken, OsAutostart::UserDisabled] {
        for intent in [true, false] {
            let (want, fix) = reconcile_decision(intent, state);
            if state == OsAutostart::UserDisabled {
                assert!(!want);
                assert_eq!(fix, Fix::Nothing);
            } else {
                assert_eq!(want, intent);
                let starts = match fix {
                    Fix::Enable => true,
                    Fix::Disable => false,
                    Fix::Nothing => state == OsAutostart::Current,
                };
                assert_eq!(starts, intent);
            }
        }
    }
}

#[test]
fn settings_default_is_undecided() {
    let s = Settings::default();
    assert_eq!(s.autostart, None);
    assert!(!s.close_to_tray);
}

#[test]
fn reconcile_settings_records_the_effective_intent() {
    let s = Settings { autostart: None, close_to_tray: true };
    // No recorded intent: the system's state is inherited once.
    let (k, fix) = reconcile_settings(s.clone(), OsAutostart::Current, true);
    assert_eq!(k.autostart, Some(true));
    assert!(k.close_to_tray);
    assert_eq!(fix, Fix::Nothing);
    let s = Settings { autostart: Some(true), close_to_tray: false };
    let (k, fix) = reconcile_settings(s.clone(), OsAutostart::Broken, false);
    assert_eq!(k.autostart, Some(true));
    assert_eq!(fix, Fix::Enable);
    let (k, fix) = reconcile_settings(s, OsAutostart::UserDisabled, true);
    assert_eq!(k.autostart, Some(false));
    assert_eq!(fix, Fix::Nothing);

    let args = vec!["app".to_string(), "--hidden".to_string()];
    assert!(start_hidden(&args, true));
    assert!(!start_hidden(&args, false));
    assert!(!start_hidden(&vec!["--hidden2".to_string()], true));
}

#[test]
fn effective_intent_inherits_only_when_undecided() {
    let undecided = Settings { autostart: None, close_to_tray: false };
    assert!(effective_intent(&undecided, true));
    assert!(!effective_intent(&undecided, false));
    let off = Settings { autostart: Some(false), close_to_tray: false };
    assert!(!effective_intent(&off, true));
}
