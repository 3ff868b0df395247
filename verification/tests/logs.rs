use seacoller::logger::{
    calc_op_log_size, fail_log_record, format_line, get_all_logs, get_all_logs_from_start,
    get_last_completed_operation, get_last_inserted_key, get_un_completed_operations,
    increment_log_try_counter, logger_config, mark_log_as_completed, read_log, read_logger_config,
    restorer_settings, write_log, write_logger_information, GeneralLogger, LogType, Logger,
    LoggerError, OperationLog, OperationLogger, OperationType, Restorer,
};

#[test]
fn test_log_info_to_stdout() {
    let mut logger = GeneralLogger::new(std::io::stdout().lock(), 1);

    let result = logger.info("Test message".to_string());

    assert!(result.is_ok());
}

#[test]
fn logger_numbers_lines() {
    let mut out: Vec<u8> = Vec::new();
    {
        let mut logger = GeneralLogger::new(&mut out, 7);
        assert!(logger.info("a".to_string()).is_ok());
        assert!(logger.warning("b".to_string()).is_ok());
        assert!(logger.error("c".to_string()).is_ok());
        assert_eq!(logger.get_id(), 10);
    }
    assert_eq!(String::from_utf8(out).unwrap(), "7| Info: a.\n8| Warning: b.\n9| Error: c.\n");
    assert_eq!(format_line(12, LogType::Info, &"x".to_string()), "12| Info: x.\n");
}

#[test]
fn operation_codes_and_backups() {
    assert_eq!(OperationType::Insert("k".to_string(), vec![1]).to_u8(), 1);
    assert_eq!(OperationType::Select("k".to_string()).to_u8(), 2);
    assert_eq!(OperationType::Delete("k".to_string()).to_u8(), 3);
    assert_eq!(OperationType::Update("k".to_string(), vec![]).to_u8(), 4);
    let r = Restorer::from_parts("db".to_string(), 5, 100);
    assert!(!r.should_update(34));
    assert!(r.should_update(35));
    assert_eq!(r.get_last_backed_operation_id(), 5);
    assert_eq!(r.get_last_backed_operation_start(), 100);
    assert_eq!(
        r.restore(),
        vec![
            ("db.value.mbpt".to_string(), "db_backup\\db.value.mbpt".to_string()),
            ("db.nodes.mbpt".to_string(), "db_backup\\db.nodes.mbpt".to_string()),
        ]
    );
}

fn sample_logs() -> Vec<OperationLog> {
    vec![
        OperationLog {
            completed: true,
            id: 0,
            start_location: 0,
            try_counter: 0,
            op_type: OperationType::Insert("key".to_string(), vec![1, 2, 3]),
        },
        OperationLog {
            completed: true,
            id: 1,
            start_location: 0,
            try_counter: 2,
            op_type: OperationType::Select("key".to_string()),
        },
        OperationLog {
            completed: false,
            id: 2,
            start_location: 0,
            try_counter: 0,
            op_type: OperationType::Delete("ключ".to_string()),
        },
        OperationLog {
            completed: false,
            id: 3,
            start_location: 0,
            try_counter: 0,
            op_type: OperationType::Update("k".to_string(), vec![]),
        },
    ]
}

fn log_file(logs: &[OperationLog]) -> (Vec<u8>, Vec<usize>) {
    let mut file = Vec::new();
    let mut starts = Vec::new();
    for log in logs {
        starts.push(file.len());
        let record = write_log(log);
        assert_eq!(record.len(), calc_op_log_size(&log.op_type));
        file.extend_from_slice(&record);
    }
    (file, starts)
}

#[test]
fn log_records_read_back() {
    let logs = sample_logs();
    let (file, starts) = log_file(&logs);
    for (log, start) in logs.iter().zip(starts.iter()) {
        let read = read_log(*start, &file[*start..]).unwrap();
        assert_eq!(read.id, log.id);
        assert_eq!(read.completed, log.completed);
        assert_eq!(read.try_counter, log.try_counter);
        assert_eq!(read.start_location, *start);
        assert_eq!(read.op_type, log.op_type);
    }
    let record = write_log(&logs[0]);
    assert_eq!(
        record,
        vec![
            0, 0, 0, 0, 0, 0, 0, 0, 1, 0, 0, 0, 0, 0, 0, 0, 0, 1, 0, 0, 0, 0, 0, 0, 0, 3, b'k', b'e',
            b'y', 0, 0, 0, 0, 0, 0, 0, 3, 1, 2, 3
        ]
    );
}

#[test]
fn log_record_errors() {
    assert_eq!(read_log(0, &[0u8; 4]).unwrap_err(), LoggerError::CantReadId);
    assert_eq!(read_log(0, &[0u8; 8]).unwrap_err(), LoggerError::CantReadCompleted);
    let mut bad = vec![0u8; 8];
    bad.push(7);
    assert_eq!(read_log(0, &bad).unwrap_err(), LoggerError::CantReadCompleted);
    assert_eq!(read_log(0, &[0u8; 12]).unwrap_err(), LoggerError::CantReadTryCounter);
    assert_eq!(read_log(0, &[0u8; 17]).unwrap_err(), LoggerError::CantReadOpType);
    let mut wrong_code = vec![0u8; 17];
    wrong_code.push(9);
    assert_eq!(read_log(0, &wrong_code).unwrap_err(), LoggerError::InvalidOperationCode(9));
    let mut short_key = vec![0u8; 17];
    short_key.push(2);
    short_key.extend_from_slice(&[0, 0, 0, 0, 0, 0, 0, 5, b'a']);
    assert_eq!(read_log(0, &short_key).unwrap_err(), LoggerError::CantReadParam);
}

#[test]
fn log_file_walks() {
    let logs = sample_logs();
    let (file, starts) = log_file(&logs);
    let all = get_all_logs(&file);
    assert_eq!(all.len(), 4);
    for (read, start) in all.iter().zip(starts.iter()) {
        assert_eq!(read.start_location, *start);
    }
    assert_eq!(get_all_logs_from_start(&file, starts[2]).len(), 2);
    assert_eq!(get_all_logs_from_start(&file, file.len()).len(), 0);
    let last = get_last_completed_operation(&file, 0).unwrap();
    assert_eq!(last.id, 1);
    assert_eq!(
        get_last_completed_operation(&file, starts[2]).unwrap_err(),
        LoggerError::CantFindLog(starts[2])
    );
}

#[test]
fn log_records_update_in_place() {
    let logs = sample_logs();
    let (mut file, starts) = log_file(&logs);
    mark_log_as_completed(&mut file, starts[2]);
    let read = read_log(starts[2], &file[starts[2]..]).unwrap();
    assert!(read.completed);
    assert_eq!(read.op_type, logs[2].op_type);
    assert_eq!(get_last_completed_operation(&file, 0).unwrap().id, 2);
    let before = read_log(starts[1], &file[starts[1]..]).unwrap();
    increment_log_try_counter(&mut file, &before);
    let after = read_log(starts[1], &file[starts[1]..]).unwrap();
    assert_eq!(after.try_counter, 3);
    assert_eq!(after.op_type, logs[1].op_type);
    let mut short = vec![9u8; 3];
    mark_log_as_completed(&mut short, 0);
    assert_eq!(short, vec![9, 9, 9, 0, 0, 0, 0, 0, 1]);
}

#[test]
fn logger_settings_read_back() {
    let entry = write_logger_information(3, &"db.oplogger".to_string());
    let mut expected = vec![0, 0, 0, 0, 0, 0, 0, 3, 0, 0, 0, 0, 0, 0, 0, 11];
    expected.extend_from_slice(b"db.oplogger");
    assert_eq!(entry, expected);
    let config = logger_config(3, &"db.oplogger".to_string(), 9, &"db.log".to_string());
    assert_eq!(
        read_logger_config(&config).unwrap(),
        (3, "db.oplogger".to_string(), 9, "db.log".to_string())
    );
    assert_eq!(read_logger_config(&[0u8; 4]).unwrap_err(), LoggerError::CantReadFromConfigFile);
    assert_eq!(
        read_logger_config(&config[..20]).unwrap_err(),
        LoggerError::CantReadFromConfigFile
    );
}

#[test]
fn restorer_settings_read_back() {
    let settings = restorer_settings(5, 100);
    assert_eq!(settings, vec![0, 0, 0, 0, 0, 0, 0, 5, 0, 0, 0, 0, 0, 0, 0, 100]);
    let r = Restorer::load("db".to_string(), &settings).unwrap();
    assert_eq!(r.get_last_backed_operation_id(), 5);
    assert_eq!(r.get_last_backed_operation_start(), 100);
    assert_eq!(r.settings_path(), "db_backup\\db.restorer.config");
    assert_eq!(Restorer::load("db".to_string(), &[0u8; 4]).err(), Some(LoggerError::CantLoadLastId));
    assert_eq!(
        Restorer::load("db".to_string(), &[0u8; 12]).err(),
        Some(LoggerError::CantLoadLastOpStart)
    );
}

#[test]
fn restorer_moves_to_last_completed() {
    let logs = sample_logs();
    let (file, starts) = log_file(&logs);
    let mut r = Restorer::from_parts("db".to_string(), 0, 0);
    let settings = r.update(&file).unwrap();
    assert_eq!(settings, restorer_settings(1, starts[1]));
    assert_eq!(r.get_last_backed_operation_id(), 1);
    assert_eq!(r.get_last_backed_operation_start(), starts[1]);
    let mut stuck = Restorer::from_parts("db".to_string(), 7, starts[2]);
    assert_eq!(stuck.update(&file).unwrap_err(), LoggerError::CantFindLog(starts[2]));
    assert_eq!(stuck.get_last_backed_operation_id(), 7);
}

#[test]
fn last_inserted_key_is_found() {
    let logs = sample_logs();
    let (file, starts) = log_file(&logs);
    assert_eq!(get_last_inserted_key(&file, 0), Some("key".to_string()));
    assert_eq!(get_last_inserted_key(&file, starts[1]), None);
}

#[test]
fn uncompleted_operations_are_sorted_out() {
    let mut logs = sample_logs();
    logs[2].try_counter = 5;
    logs[3].try_counter = 4;
    let (mut file, starts) = log_file(&logs);
    let (redo, failed) = get_un_completed_operations(&mut file, 0);
    assert_eq!(redo.len(), 1);
    assert_eq!(redo[0].id, 3);
    assert_eq!(failed, vec![logs[2].op_type.clone()]);
    assert!(read_log(starts[2], &file[starts[2]..]).unwrap().completed);
    assert!(!read_log(starts[3], &file[starts[3]..]).unwrap().completed);
}

#[test]
fn operations_as_text() {
    assert_eq!(OperationType::Insert("k".to_string(), vec![1, 20]).to_string(), "Insert k:[1, 20]");
    assert_eq!(OperationType::Select("k".to_string()).to_string(), "Select k");
    assert_eq!(OperationType::Delete("k".to_string()).to_string(), "Delete k");
    assert_eq!(OperationType::Update("k".to_string(), vec![]).to_string(), "Update k:[]");
    let mut expected = vec![0, 0, 0, 0, 0, 0, 0, 9];
    expected.extend_from_slice(b"Select ab");
    assert_eq!(fail_log_record(&OperationType::Select("ab".to_string())), expected);
}

#[test]
fn operation_logger_keeps_its_file() {
    let mut op_logger = OperationLogger::new(Vec::new(), 1);
    let first = op_logger.log_operation(OperationType::Insert("k".to_string(), vec![7])).unwrap();
    assert_eq!(first.id, 1);
    assert_eq!(first.start_location, 0);
    let second = op_logger.log_operation(OperationType::Select("k".to_string())).unwrap();
    assert_eq!(second.id, 2);
    assert_eq!(second.start_location, calc_op_log_size(&first.op_type));
    assert_eq!(op_logger.get_id(), 3);
    assert!(op_logger.get_last_completed_operation(0).is_err());
    op_logger.mark_log_as_completed(first.start_location).unwrap();
    assert_eq!(op_logger.get_last_completed_operation(0).unwrap().id, 1);
    op_logger.increment_log_try_counter(&second).unwrap();
    assert_eq!(op_logger.read_log(second.start_location).unwrap().try_counter, 1);
    assert_eq!(op_logger.get_all_logs().len(), 2);
    assert_eq!(op_logger.get_all_logs_from_start(second.start_location).len(), 1);
    assert_eq!(op_logger.read_log(10_000).unwrap_err(), LoggerError::CantReadId);
}

#[test]
fn store_logger_logs_and_backs_up() {
    let mut logger = Logger {
        op_logger: OperationLogger::new(Vec::new(), 1),
        gen_logger: GeneralLogger::new(Vec::<u8>::new(), 1),
        restorer: Restorer::from_parts("db".to_string(), 0, 0),
        name: "db".to_string(),
        general_logger_filename: None,
    };
    let (first, settings) = logger.log_insert_operation(&"a".to_string(), &vec![1]).unwrap();
    assert!(settings.is_none());
    logger.mark_operation_as_completed(&first).unwrap();
    for i in 0..28 {
        let (op, settings) = logger.log_select_operation(&format!("k{}", i)).unwrap();
        assert!(settings.is_none());
        logger.mark_operation_as_completed(&op).unwrap();
    }
    let (op, settings) = logger.log_delete_operation(&"a".to_string()).unwrap();
    assert_eq!(op.id, 30);
    assert!(settings.is_some());
    assert_eq!(logger.restorer.get_last_backed_operation_id(), 29);
    assert_eq!(logger.get_last_inserted_key(), None);
    let (_, _) = logger.log_update_operation(&"b".to_string(), &vec![]).unwrap();
    assert!(logger.log_info("x".to_string()).is_ok());
    assert!(logger.log_warning("y".to_string()).is_ok());
    assert!(logger.log_error("z".to_string()).is_ok());
    assert_eq!(logger.gen_logger.get_id(), 4);
}
